//! What the parts of the library promise together.

use vstd::prelude::*;

use vstd::arithmetic::div_mod::{lemma_fundamental_div_mod, lemma_fundamental_div_mod_converse};

use crate::codec::{pcm_file, wav_open, MAX_CHANNELS, MAX_SAMPLES};
use crate::layout::{
    channel, channel_len, deinterleaved, grown, has_frames, holds_frames, interleaved, lemma_channel_len,
    lemma_place, lemma_place_of, overlaid, place,
};
use crate::queue::{front, joined, uniform, without_front};
use crate::reader::{all_ok, decodes, first, lemma_ok_prefix, ok_values, reads_frames};
use crate::writer::is_wav;

verus! {

/// Of `n` interleaved frames every channel has `n` samples.
proof fn lemma_whole_frames(n: nat, c: int, channels: nat)
    requires
        0 <= c < channels,
    ensures
        channel_len(n * channels, c, channels) == n,
        (n * channels) % channels == 0,
        (n * channels) / channels == n,
{
    lemma_place(n as int, 0, channels as int);
}

/// Deinterleaving undoes interleaving: it gives back the frames that were
/// interleaved.
pub proof fn law_deinterleave_undoes_interleave<T>(x: Seq<Seq<T>>, n: nat)
    requires
        x.len() > 0,
        holds_frames(x, n),
    ensures
        deinterleaved(interleaved(x, n), x.len()) == front(x, n),
{
    let got = deinterleaved(interleaved(x, n), x.len());
    assert forall|c: int| 0 <= c < x.len() implies (#[trigger] got[c]) == front(x, n)[c] by {
        lemma_whole_frames(n, c, x.len());
        assert(x[c].len() >= n);
        assert forall|t: int| 0 <= t < n implies got[c][t] == x[c][t] by {
            lemma_place(t, c, x.len() as int);
            lemma_channel_len(n * x.len(), t, c, x.len());
        }
        assert(got[c] =~= front(x, n)[c]);
    }
    assert(got =~= front(x, n));
}

/// Interleaving undoes deinterleaving of whole frames.
pub proof fn law_interleave_undoes_deinterleave<T>(s: Seq<T>, channels: nat)
    requires
        channels > 0,
        s.len() % channels == 0,
    ensures
        interleaved(deinterleaved(s, channels), s.len() / channels) == s,
{
    let x = deinterleaved(s, channels);
    let got = interleaved(x, s.len() / channels);
    lemma_place_of(s.len() as int, channels as int);
    assert forall|i: int| 0 <= i < s.len() implies got[i] == s[i] by {
        lemma_place_of(i, channels as int);
        let c = i % (channels as int);
        let t = i / (channels as int);
        lemma_channel_len(s.len(), t, c, channels);
        assert(x[c] == channel(s, c, channels));
    }
    assert(got =~= s);
}

/// The interleaved samples of two blocks, one after the other, are those of
/// the two blocks joined.
pub proof fn law_interleaving_joins<T>(a: Seq<Seq<T>>, b: Seq<Seq<T>>, n: nat, m: nat)
    requires
        a.len() > 0,
        a.len() == b.len(),
        has_frames(a, n),
        holds_frames(b, m),
    ensures
        interleaved(a, n) + interleaved(b, m) == interleaved(joined(a, b), n + m),
{
    let channels = a.len() as int;
    let got = interleaved(a, n) + interleaved(b, m);
    let want = interleaved(joined(a, b), n + m);
    assert((n + m) * channels == n * channels + m * channels) by (nonlinear_arith);
    assert forall|i: int| 0 <= i < want.len() implies got[i] == want[i] by {
        lemma_place_of(i, channels);
        let c = i % channels;
        let t = i / channels;
        assert(a[c].len() == n);
        assert(b[c].len() >= m);
        lemma_whole_frames(n, c, a.len());
        lemma_channel_len(n * a.len(), t, c, a.len());
        lemma_whole_frames(n + m, c, a.len());
        lemma_channel_len((n + m) * a.len(), t, c, a.len());
        if t >= n {
            lemma_place(t - n, c, channels);
            assert((t - n) * channels == t * channels - n * channels) by (nonlinear_arith);
            assert(i - n * channels == place(t - n, c, channels));
            assert(got[i] == b[c][t - n]);
        } else {
            assert(got[i] == a[c][t]);
        }
    }
    assert(got =~= want);
}

/// Where a file holds what was emitted so far, interleaved, and the first `w`
/// frames of a block are written next, it holds what is then emitted.
pub proof fn law_emitted_is_what_is_written<T>(emitted: Seq<Seq<T>>, b: Seq<Seq<T>>, w: nat)
    requires
        emitted.len() > 0,
        uniform(emitted, emitted.len()),
        b.len() == emitted.len(),
        holds_frames(b, w),
    ensures
        interleaved(emitted, emitted[0].len()) + interleaved(b, w) == interleaved(
            joined(emitted, front(b, w)),
            emitted[0].len() + w,
        ),
{
    let channels = b.len() as int;
    let cut = front(b, w);
    assert forall|c: int| 0 <= c < cut.len() implies w <= (#[trigger] cut[c]).len() by {
        assert(b[c].len() >= w);
    }
    assert forall|i: int| 0 <= i < w * channels implies interleaved(b, w)[i] == interleaved(
        cut,
        w,
    )[i] by {
        lemma_place_of(i, channels);
        let c = i % channels;
        let t = i / channels;
        assert(b[c].len() >= w);
        lemma_whole_frames(w, c, b.len());
        lemma_channel_len(w * b.len(), t, c, b.len());
    }
    assert(interleaved(b, w) =~= interleaved(cut, w));
    law_interleaving_joins(emitted, cut, emitted[0].len(), w);
}

/// Blocks joined to one, from the first to the last.
pub open spec fn all_joined<T>(blocks: Seq<Seq<Seq<T>>>, channels: nat) -> Seq<Seq<T>>
    decreases blocks.len(),
{
    if blocks.len() == 0 {
        Seq::new(channels, |c: int| Seq::<T>::empty())
    } else {
        joined(all_joined(blocks.drop_last(), channels), blocks.last())
    }
}

/// The interleaved samples of blocks, from the first to the last.
pub open spec fn all_interleaved<T>(blocks: Seq<Seq<Seq<T>>>) -> Seq<T>
    decreases blocks.len(),
{
    if blocks.len() == 0 {
        Seq::empty()
    } else {
        all_interleaved(blocks.drop_last()) + interleaved(blocks.last(), blocks.last()[0].len())
    }
}

/// Writing audio block by block gives the samples of writing it as a whole.
pub proof fn law_blocks_are_the_whole<T>(blocks: Seq<Seq<Seq<T>>>, channels: nat)
    requires
        channels > 0,
        forall|i: int| 0 <= i < blocks.len() ==> uniform(#[trigger] blocks[i], channels),
    ensures
        uniform(all_joined(blocks, channels), channels),
        all_interleaved(blocks) == interleaved(
            all_joined(blocks, channels),
            all_joined(blocks, channels)[0].len(),
        ),
    decreases blocks.len(),
{
    if blocks.len() == 0 {
        assert(all_interleaved(blocks) =~= interleaved(all_joined(blocks, channels), 0));
    } else {
        let init = blocks.drop_last();
        assert forall|i: int| 0 <= i < init.len() implies uniform(#[trigger] init[i], channels) by {
            assert(init[i] == blocks[i]);
        }
        law_blocks_are_the_whole(init, channels);
        let a = all_joined(init, channels);
        let b = blocks[blocks.len() - 1];
        assert(uniform(b, channels));
        let whole = all_joined(blocks, channels);
        assert forall|c: int| 0 <= c < channels implies (#[trigger] whole[c]).len()
            == whole[0].len() by {
            assert(a[c].len() == a[0].len());
            assert(b[c].len() == b[0].len());
        }
        law_interleaving_joins(a, b, a[0].len(), b[0].len());
    }
}

/// A stream that is fed block by block ends as the same file, byte for byte,
/// as one written as a whole.
pub proof fn law_streamed_file_is_the_whole_file(
    streamed: Seq<u8>,
    whole: Seq<u8>,
    channels: u16,
    sample_rate: u32,
    blocks: Seq<Seq<Seq<i16>>>,
)
    requires
        channels > 0,
        forall|i: int| 0 <= i < blocks.len() ==> uniform(#[trigger] blocks[i], channels as nat),
        is_wav(streamed, channels, sample_rate, all_interleaved(blocks)),
        is_wav(
            whole,
            channels,
            sample_rate,
            interleaved(
                all_joined(blocks, channels as nat),
                all_joined(blocks, channels as nat)[0].len(),
            ),
        ),
    ensures
        streamed == whole,
{
    law_blocks_are_the_whole(blocks, channels as nat);
}

/// A file that was written is read back as what was written.
pub proof fn law_read_gives_back_what_was_written(
    bytes: Seq<u8>,
    x: Seq<Seq<i16>>,
    n: nat,
    sample_rate: u32,
)
    requires
        0 < x.len() <= MAX_CHANNELS,
        holds_frames(x, n),
        n * x.len() <= MAX_SAMPLES,
        is_wav(bytes, x.len() as u16, sample_rate, interleaved(x, n)),
    ensures
        decodes(bytes),
        wav_open(bytes) is Ok,
        wav_open(bytes)->Ok_0.channels == x.len(),
        wav_open(bytes)->Ok_0.sample_rate == sample_rate,
        wav_open(bytes)->Ok_0.n_samples == n * x.len(),
        wav_open(bytes)->Ok_0.bits == 16,
        wav_open(bytes)->Ok_0.format is Int,
        deinterleaved(ok_values(wav_open(bytes)->Ok_0.remaining), x.len()) == front(x, n),
{
    let samples = interleaved(x, n);
    let file = pcm_file(x.len() as u16, sample_rate, samples);
    assert(wav_open(bytes)->Ok_0 == file);
    assert(all_ok(file.remaining));
    assert(ok_values(file.remaining) =~= samples);
    law_deinterleave_undoes_interleave(x, n);
}

/// Reading `n` frames and then the rest gives the same channels as reading
/// all at once.
pub proof fn law_blockwise_read_is_the_whole_read<T>(s: Seq<T>, n: nat, channels: nat)
    requires
        channels > 0,
        n * channels <= s.len(),
    ensures
        deinterleaved(s, channels) == joined(
            deinterleaved(s.take((n * channels) as int), channels),
            deinterleaved(s.skip((n * channels) as int), channels),
        ),
{
    let k = n * channels;
    let a = deinterleaved(s.take(k as int), channels);
    let b = deinterleaved(s.skip(k as int), channels);
    let whole = deinterleaved(s, channels);
    let rest = (s.len() - k) as nat;
    lemma_place_of(rest as int, channels as int);
    let q = rest as int / channels as int;
    let r = rest as int % channels as int;
    assert((n + q) * channels == n * channels + q * channels) by (nonlinear_arith);
    lemma_place(n + q, r, channels as int);
    assert forall|c: int| 0 <= c < channels implies (#[trigger] whole[c]) == joined(a, b)[c] by {
        lemma_whole_frames(n, c, channels);
        assert(whole[c].len() == a[c].len() + b[c].len());
        assert forall|t: int| 0 <= t < whole[c].len() implies whole[c][t] == joined(a, b)[c][t] by {
            lemma_place(t, c, channels as int);
            if t < n {
                lemma_channel_len(k, t, c, channels);
            } else {
                lemma_channel_len(rest, t - n, c, channels);
                lemma_place(t - n, c, channels as int);
                assert((t - n) * channels == t * channels - n * channels) by (nonlinear_arith);
            }
        }
        assert(whole[c] =~= joined(a, b)[c]);
    }
    assert(whole =~= joined(a, b));
}

/// A block joined to the blocks after it.
proof fn lemma_join_first<T>(b: Seq<Seq<T>>, blocks: Seq<Seq<Seq<T>>>, channels: nat)
    requires
        b.len() == channels,
    ensures
        all_joined(seq![b] + blocks, channels) == joined(b, all_joined(blocks, channels)),
        all_joined(blocks, channels).len() == channels,
    decreases blocks.len(),
{
    let all = seq![b] + blocks;
    if blocks.len() == 0 {
        reveal_with_fuel(all_joined, 2);
        assert(all.drop_last() =~= Seq::<Seq<Seq<T>>>::empty());
        assert(all.last() == b);
        assert forall|c: int| 0 <= c < channels implies (#[trigger] all_joined(all, channels)[c])
            == joined(b, all_joined(blocks, channels))[c] by {
            assert(Seq::<T>::empty() + b[c] =~= b[c] + Seq::<T>::empty());
        }
    } else {
        lemma_join_first(b, blocks.drop_last(), channels);
        assert(all.drop_last() =~= seq![b] + blocks.drop_last());
        assert(all.last() == blocks.last());
        let init = all_joined(blocks.drop_last(), channels);
        assert forall|c: int| 0 <= c < channels implies (#[trigger] all_joined(all, channels)[c])
            == joined(b, all_joined(blocks, channels))[c] by {
            assert((b[c] + init[c]) + blocks.last()[c] =~= b[c] + (init[c] + blocks.last()[c]));
        }
    }
    assert(all_joined(all, channels) =~= joined(b, all_joined(blocks, channels)));
}

/// A block read holds the frames read, and keeps what it held beyond them.
pub proof fn law_read_block_holds_the_frames<T>(before: Seq<Seq<T>>, s: Seq<T>, n: nat)
    requires
        before.len() > 0,
        holds_frames(before, n),
        n * before.len() <= s.len(),
    ensures
        front(overlaid(before, s, n * before.len(), before.len()), n) == deinterleaved(
            s.take((n * before.len()) as int),
            before.len(),
        ),
        without_front(overlaid(before, s, n * before.len(), before.len()), n) == without_front(before, n),
{
    let channels = before.len();
    let k = n * channels;
    let after = overlaid(before, s, k, channels);
    let read = deinterleaved(s.take(k as int), channels);
    assert forall|c: int| 0 <= c < channels implies (#[trigger] front(after, n)[c]) == read[c] by {
        assert(before[c].len() >= n);
        lemma_whole_frames(n, c, channels);
        assert forall|t: int| 0 <= t < n implies after[c][t] == read[c][t] by {
            lemma_place(t, c, channels as int);
            lemma_channel_len(k, t, c, channels);
        }
        assert(front(after, n)[c] =~= read[c]);
    }
    assert(front(after, n) =~= read);
    assert forall|c: int| 0 <= c < channels implies (#[trigger] without_front(after, n)[c])
        == before[c].skip(n as int) by {
        assert(before[c].len() >= n);
        lemma_whole_frames(n, c, channels);
        assert forall|t: int| n <= t < before[c].len() implies after[c][t] == before[c][t] by {
            lemma_channel_len(k, t, c, channels);
        }
        assert(without_front(after, n)[c] =~= before[c].skip(n as int));
    }
    assert(without_front(after, n) =~= without_front(before, n));
}

/// One call that reads frames.
pub struct ReadCall<T, E> {
    /// What was left to decode before the call.
    pub rem: Seq<Result<T, E>>,
    /// What is left to decode after it.
    pub left: Seq<Result<T, E>>,
    /// The block before the call.
    pub out_before: Seq<Seq<T>>,
    /// The block after it.
    pub out_after: Seq<Seq<T>>,
    /// What the call returned.
    pub result: Result<nat, E>,
}

impl<T, E> ReadCall<T, E> {
    /// This is a call that reads up to `max_frames` frames into a block with
    /// all channels.
    pub open spec fn made(self, channels: nat, max_frames: nat, zero: T) -> bool {
        &&& self.out_before.len() == channels
        &&& reads_frames(
            self.rem,
            self.left,
            self.out_before,
            self.out_after,
            channels,
            max_frames,
            zero,
            self.result,
        )
    }

    /// The number of frames read.
    pub open spec fn frames(self) -> nat {
        self.result->Ok_0
    }

    /// The frames read.
    pub open spec fn block(self) -> Seq<Seq<T>> {
        front(self.out_after, self.frames())
    }
}

/// A call that succeeds reads the frames at the start of what is left, and
/// stops early only where nothing is left.
proof fn lemma_call<T, E>(call: ReadCall<T, E>, channels: nat, m: nat, zero: T)
    requires
        channels > 0,
        call.made(channels, m, zero),
        call.result is Ok,
    ensures
        ({
            let head = first(call.rem, m * channels);
            &&& all_ok(head)
            &&& call.frames() * channels <= head.len()
            &&& call.block() == deinterleaved(
                ok_values(head).take((call.frames() * channels) as int),
                channels,
            )
            &&& call.frames() == m ==> head.len() == m * channels && call.left == call.rem.skip(
                (m * channels) as int,
            )
            &&& call.frames() < m ==> head == call.rem && call.left.len() == 0
        }),
{
    let head = first(call.rem, m * channels);
    let n = call.frames();
    let room = grown(call.out_before, m, zero);
    lemma_ok_prefix(head);
    lemma_place_of(head.len() as int, channels as int);
    law_read_block_holds_the_frames(room, ok_values(head), n);
    if n < m {
        lemma_whole_frames(m, 0, channels);
    }
}

/// A call on samples that all decode succeeds.
proof fn lemma_decodable_call<T, E>(call: ReadCall<T, E>, channels: nat, m: nat, zero: T)
    requires
        call.made(channels, m, zero),
        all_ok(first(call.rem, m * channels)),
    ensures
        call.result is Ok,
{
    lemma_ok_prefix(first(call.rem, m * channels));
}

/// A number of frames below what was asked for says that the file has ended:
/// nothing is left, and whatever is asked for later, no frame comes and the
/// block is only grown.
pub proof fn law_short_read_is_the_end<T, E>(
    short: ReadCall<T, E>,
    later: ReadCall<T, E>,
    channels: nat,
    m: nat,
    k: nat,
    zero: T,
)
    requires
        channels > 0,
        short.made(channels, m, zero),
        short.result is Ok,
        short.frames() < m,
        later.made(channels, k, zero),
        later.rem == short.left,
    ensures
        short.left.len() == 0,
        later.result == Ok::<nat, E>(0),
        later.left == later.rem,
        later.out_after == grown(later.out_before, k, zero),
{
    let head = first(later.rem, k * channels);
    lemma_ok_prefix(head);
    lemma_place(0, 0, channels as int);
    let room = grown(later.out_before, k, zero);
    law_read_block_holds_the_frames(room, ok_values(head), 0);
    assert(without_front(later.out_after, 0) == without_front(room, 0));
    assert forall|c: int| 0 <= c < channels implies (#[trigger] later.out_after[c]) == room[c] by {
        assert(without_front(later.out_after, 0)[c] == without_front(room, 0)[c]);
        assert(later.out_after[c].skip(0) =~= later.out_after[c]);
        assert(room[c].skip(0) =~= room[c]);
    }
    assert(later.out_after =~= room);
    assert(later.left =~= later.rem);
}

/// The size of the blocks does not affect what is read: reading `a` frames and
/// then `b` gives the frames of reading `a + b` at once, and leaves the same.
pub proof fn law_block_size_does_not_matter<T, E>(
    x: ReadCall<T, E>,
    y: ReadCall<T, E>,
    both: ReadCall<T, E>,
    channels: nat,
    a: nat,
    b: nat,
    zero: T,
)
    requires
        channels > 0,
        x.made(channels, a, zero),
        x.result is Ok,
        y.made(channels, b, zero),
        y.result is Ok,
        y.rem == x.left,
        both.made(channels, a + b, zero),
        both.rem == x.rem,
    ensures
        both.result == Ok::<nat, E>(x.frames() + y.frames()),
        both.block() == joined(x.block(), y.block()),
        both.left == y.left,
{
    let hx = first(x.rem, a * channels);
    let hy = first(y.rem, b * channels);
    let h = first(x.rem, (a + b) * channels);
    let n1 = x.frames();
    let n2 = y.frames();
    lemma_call(x, channels, a, zero);
    lemma_call(y, channels, b, zero);
    lemma_ok_prefix(hx);
    lemma_ok_prefix(hy);
    assert((a + b) * channels == a * channels + b * channels) by (nonlinear_arith);
    assert(h =~= hx + hy);
    assert(all_ok(h));
    lemma_decodable_call(both, channels, a + b, zero);
    lemma_call(both, channels, a + b, zero);
    lemma_place_of(hy.len() as int, channels as int);
    let q = hy.len() as int / channels as int;
    let r = hy.len() as int % channels as int;
    assert((a + q) * channels == a * channels + q * channels) by (nonlinear_arith);
    if n1 == a {
        lemma_place(a + q, r, channels as int);
    } else {
        lemma_place(0, 0, channels as int);
    }
    assert(both.frames() == n1 + n2);
    assert((n1 + n2) * channels == n1 * channels + n2 * channels) by (nonlinear_arith);
    let s = ok_values(h).take(((n1 + n2) * channels) as int);
    assert(s.take((n1 * channels) as int) =~= ok_values(hx).take((n1 * channels) as int));
    assert(s.skip((n1 * channels) as int) =~= ok_values(hy).take((n2 * channels) as int));
    law_blockwise_read_is_the_whole_read(s, n1, channels);
    assert(both.left =~= y.left);
}

/// Calls that read up to `m` frames each, one after the other, until one of
/// them does not return `m` frames.
pub open spec fn reads_to_the_end<T, E>(
    calls: Seq<ReadCall<T, E>>,
    channels: nat,
    m: nat,
    zero: T,
) -> bool {
    &&& calls.len() > 0
    &&& forall|i: int| 0 <= i < calls.len() ==> (#[trigger] calls[i]).made(channels, m, zero)
    &&& forall|i: int|
        0 <= i < calls.len() - 1 ==> (#[trigger] calls[i]).result == Ok::<nat, E>(m)
    &&& forall|i: int, j: int|
        0 <= i && j == i + 1 && j < calls.len() ==> (#[trigger] calls[j]).rem == (
        #[trigger] calls[i]).left
    &&& calls.last().result != Ok::<nat, E>(m)
}

/// The blocks that calls have read.
pub open spec fn blocks_read<T, E>(calls: Seq<ReadCall<T, E>>) -> Seq<Seq<Seq<T>>> {
    calls.map_values(|call: ReadCall<T, E>| call.block())
}

/// The number of frames that calls have read together.
pub open spec fn frames_read<T, E>(calls: Seq<ReadCall<T, E>>) -> nat
    decreases calls.len(),
{
    if calls.len() == 0 {
        0
    } else {
        calls[0].frames() + frames_read(calls.skip(1))
    }
}

/// Reading samples that all decode, in blocks of `m` frames to the end: every
/// call succeeds, and all but the last return `m` frames. The numbers of
/// frames add up to that of the samples, the number of calls follows from it,
/// and the blocks joined are the channels that reading all at once gives.
pub proof fn law_reading_to_the_end<T, E>(
    calls: Seq<ReadCall<T, E>>,
    channels: nat,
    m: nat,
    zero: T,
)
    requires
        channels > 0,
        m > 0,
        reads_to_the_end(calls, channels, m, zero),
        calls[0].rem.len() % channels == 0,
        all_ok(calls[0].rem),
    ensures
        forall|i: int| 0 <= i < calls.len() ==> (#[trigger] calls[i]).result is Ok,
        calls.last().frames() < m,
        calls.last().left.len() == 0,
        frames_read(calls) == calls[0].rem.len() / channels,
        calls.len() == calls[0].rem.len() / channels / m + 1,
        all_joined(blocks_read(calls), channels) == deinterleaved(
            ok_values(calls[0].rem),
            channels,
        ),
    decreases calls.len(),
{
    let call = calls[0];
    let rem = call.rem;
    let k = m * channels;
    let s = ok_values(rem);
    let n = (rem.len() / channels) as int;
    assert(call.made(channels, m, zero));
    lemma_decodable_call(call, channels, m, zero);
    lemma_call(call, channels, m, zero);
    lemma_place_of(rem.len() as int, channels as int);
    if calls.len() == 1 {
        assert(call.frames() == n);
        assert(s.take((n * channels) as int) =~= s);
        lemma_fundamental_div_mod_converse(n, m as int, 0, n);
        let none = Seq::<Seq<Seq<T>>>::empty();
        lemma_join_first(call.block(), none, channels);
        assert(blocks_read(calls) =~= seq![call.block()] + none);
        let got = joined(call.block(), all_joined(none, channels));
        assert forall|c: int| 0 <= c < channels implies (#[trigger] got[c]) == call.block()[c] by {
            assert(got[c] =~= call.block()[c]);
        }
        assert(got =~= call.block());
        assert(frames_read(calls.skip(1)) == 0);
    } else {
        assert(call.result == Ok::<nat, E>(m));
        let rest = calls.skip(1);
        assert(calls[1].rem == call.left);
        assert(rest.last() == calls.last());
        let left = (n - m) as int;
        assert(left * channels == n * channels - m * channels) by (nonlinear_arith)
            requires
                left == n - m,
        ;
        if left < 0 {
            assert(left * channels < 0) by (nonlinear_arith)
                requires
                    left < 0,
                    channels > 0,
            ;
        }
        lemma_place(left, 0, channels as int);
        assert forall|i: int| 0 <= i < rest[0].rem.len() implies (#[trigger] rest[0].rem[i]) is Ok by {
            assert(rest[0].rem[i] == rem[i + k]);
        }
        law_reading_to_the_end(rest, channels, m, zero);
        lemma_fundamental_div_mod(left, m as int);
        let q = left / (m as int);
        assert((q + 1) * m == m * q + m) by (nonlinear_arith);
        lemma_fundamental_div_mod_converse(n, m as int, q + 1, left % (m as int));
        assert forall|i: int| 0 <= i < calls.len() implies (#[trigger] calls[i]).result is Ok by {
            if i > 0 {
                assert(rest[i - 1].result is Ok);
            }
        }
        lemma_join_first(call.block(), blocks_read(rest), channels);
        assert(blocks_read(calls) =~= seq![call.block()] + blocks_read(rest));
        assert(ok_values(rest[0].rem) =~= s.skip(k as int));
        assert(ok_values(first(rem, k)).take(k as int) =~= s.take(k as int));
        law_blockwise_read_is_the_whole_read(s, m, channels);
    }
}

/// Writing `n` whole frames raises the number of frames written by `n`.
pub proof fn law_frames_written_counts_frames<T>(written: Seq<T>, x: Seq<Seq<T>>, n: nat)
    requires
        x.len() > 0,
    ensures
        (written + interleaved(x, n)).len() / x.len() == written.len() / x.len() + n,
        (written + interleaved(x, n)).len() % x.len() == written.len() % x.len(),
{
    let channels = x.len() as int;
    lemma_place_of(written.len() as int, channels);
    let q = written.len() as int / channels;
    let r = written.len() as int % channels;
    assert((q + n) * channels == q * channels + n * channels) by (nonlinear_arith);
    lemma_place(q + n, r, channels);
}

} // verus!
