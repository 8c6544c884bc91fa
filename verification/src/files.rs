//! What files hold that were written, whole or as a stream, once they are
//! opened.

use vstd::prelude::*;

use crate::array::Grid;
use crate::codec::{wav_open, writable, SinkState, WavFile, MAX_CHANNELS, MAX_SAMPLES};
use crate::error::{HoundErrorKind, WavUtilsError};
use crate::layout::{holds_frames, interleaved, lemma_place, lemma_place_of};
use crate::pointwise::{law_decoded_value, law_deinterleaved_sample, law_interleaved_sample};
use crate::reader::{all_ok, decodes, file_channels, file_samples, opened, ReadWav};
use crate::writer::{
    header_channels, is_unfinished_error, stream_ends, stream_flushes, stream_starts, stream_takes,
    writes, writes_block, writes_frames, writes_grid,
};

verus! {

/// What an opened file says of itself is what its header says, and its frames
/// make up all its samples.
pub proof fn law_frames_make_the_file(wav: &ReadWav)
    requires
        wav.wf(),
    ensures
        wav.channels > 0,
        wav.channels == wav.file().channels,
        wav.sr == wav.file().sample_rate,
        wav.dtype == wav.file().format,
        wav.len * wav.channels == wav.file().n_samples,
{
    lemma_place_of(wav.file().n_samples as int, wav.file().channels as int);
}

/// A header counts every number of channels that its 16 bits can hold, and
/// begins again after that.
pub proof fn law_header_counts_channels(n: nat)
    ensures
        n <= 65535 ==> header_channels(n) == n,
        header_channels(n + 65536) == header_channels(n),
{
}

/// Samples that were written open as they are, one by one, and not one more.
/// The file is accepted just where they make whole frames; the bytes follow
/// from the samples either way.
pub proof fn law_written_samples_are_opened(
    samples: Seq<i16>,
    ch: u16,
    sr: u32,
    bytes: Seq<u8>,
    r: Result<(), WavUtilsError>,
    i: int,
)
    requires
        0 < ch <= 32767,
        samples.len() <= MAX_SAMPLES,
        writes(samples, ch, sr, bytes, r),
        0 <= i < samples.len(),
    ensures
        r is Ok <==> (samples.len() / (ch as nat)) * ch == samples.len(),
        r matches Err(e) ==> e.spec_hound_kind() == Some(HoundErrorKind::UnfinishedSample),
        r is Ok ==> match wav_open(bytes) {
            Ok(file) => {
                &&& file.channels == ch
                &&& file.sample_rate == sr
                &&& file.n_samples == samples.len()
                &&& file.bits == 16
                &&& file.format is Int
                &&& file.remaining.len() == samples.len()
                &&& file.remaining[i] == Ok::<i16, HoundErrorKind>(samples[i])
            },
            Err(_) => false,
        },
{
    lemma_place_of(samples.len() as int, ch as int);
}

/// The same samples always make the same bytes.
pub proof fn law_bytes_follow_from_the_samples(
    samples: Seq<i16>,
    ch: u16,
    sr: u32,
    bytes: Seq<u8>,
    r: Result<(), WavUtilsError>,
    other_bytes: Seq<u8>,
    other_r: Result<(), WavUtilsError>,
)
    requires
        writes(samples, ch, sr, bytes, r),
        writes(samples, ch, sr, other_bytes, other_r),
    ensures
        bytes == other_bytes,
        r is Ok == other_r is Ok,
{
}

/// Frames of a block of up to 65535 channels are always accepted; where they
/// can be opened, they are a file of that many channels with these frames,
/// each sample in its place, and no other.
pub proof fn law_written_frames_are_opened(
    x: Seq<Seq<i16>>,
    n: nat,
    sr: u32,
    bytes: Seq<u8>,
    r: Result<(), WavUtilsError>,
    t: int,
    c: int,
)
    requires
        0 < x.len() <= 65535,
        n * x.len() <= MAX_SAMPLES,
        writes_frames(x, n, sr, bytes, r),
        0 <= t < n,
        0 <= c < x.len(),
    ensures
        r is Ok,
        x.len() <= 32767 ==> match wav_open(bytes) {
            Ok(file) => {
                &&& file.channels == x.len()
                &&& file.sample_rate == sr
                &&& file.n_samples == n * x.len()
                &&& file.bits == 16
                &&& file.format is Int
                &&& file.remaining.len() == n * x.len()
                &&& file.remaining[t * x.len() + c] == Ok::<i16, HoundErrorKind>(x[c][t])
            },
            Err(_) => false,
        },
{
    lemma_place(n as int, 0, x.len() as int);
    law_interleaved_sample(x, n, t, c);
}

/// A block is written with all frames of its first channel, an array with all
/// its columns: of the same audio they make the same bytes.
pub proof fn law_block_and_array_make_the_same_file(
    x: Seq<Seq<i16>>,
    sr: u32,
    bytes: Seq<u8>,
    r: Result<(), WavUtilsError>,
    array_bytes: Seq<u8>,
    array_r: Result<(), WavUtilsError>,
    frame_bytes: Seq<u8>,
    frame_r: Result<(), WavUtilsError>,
)
    requires
        x.len() > 0,
        writes_block(x, sr, bytes, r),
        writes_grid(Grid { rows: x, cols: x[0].len() }, sr, array_bytes, array_r),
        writes_frames(x, x[0].len(), sr, frame_bytes, frame_r),
    ensures
        bytes == array_bytes,
        bytes == frame_bytes,
{
}

/// A block that was written is read back by channels: frame `t` of channel `c`
/// is frame `t` of channel `c`, and there is no other.
pub proof fn law_written_block_is_read_back(
    x: Seq<Seq<i16>>,
    sr: u32,
    bytes: Seq<u8>,
    r: Result<(), WavUtilsError>,
    t: int,
    c: int,
)
    requires
        0 < x.len() <= 32767,
        x[0].len() * x.len() <= MAX_SAMPLES,
        writes_block(x, sr, bytes, r),
        0 <= t < x[0].len(),
        0 <= c < x.len(),
    ensures
        r is Ok,
        decodes(bytes),
        wav_open(bytes) matches Ok(file) && {
            &&& file_channels(file).len() == x.len()
            &&& file_channels(file)[c].len() == x[0].len()
            &&& file_channels(file)[c][t] == x[c][t]
        },
{
    let n = x[0].len();
    law_written_frames_are_opened(x, n, sr, bytes, r, t, c);
    let samples = file_samples(wav_open(bytes)->Ok_0);
    law_deinterleaved_sample(samples, x.len(), t, c);
    lemma_place(n as int, 0, x.len() as int);
}

/// An array that was written is read back as its rows.
pub proof fn law_written_array_is_read_back(
    grid: Grid,
    sr: u32,
    bytes: Seq<u8>,
    r: Result<(), WavUtilsError>,
    t: int,
    c: int,
)
    requires
        0 < grid.rows.len() <= 32767,
        grid.cols * grid.rows.len() <= MAX_SAMPLES,
        writes_grid(grid, sr, bytes, r),
        0 <= t < grid.cols,
        0 <= c < grid.rows.len(),
    ensures
        r is Ok,
        decodes(bytes),
        wav_open(bytes) matches Ok(file) && {
            &&& file_channels(file).len() == grid.rows.len()
            &&& file_channels(file)[c].len() == grid.cols
            &&& file_channels(file)[c][t] == grid.rows[c][t]
        },
{
    let x = grid.rows;
    let n = grid.cols;
    law_written_frames_are_opened(x, n, sr, bytes, r, t, c);
    let samples = file_samples(wav_open(bytes)->Ok_0);
    law_deinterleaved_sample(samples, x.len(), t, c);
    lemma_place(n as int, 0, x.len() as int);
}

/// A block that was written says, once it is opened, how many channels and
/// frames it has, and at which rate; nothing of it has been read.
pub proof fn law_written_block_has_its_header(
    x: Seq<Seq<i16>>,
    sr: u32,
    bytes: Seq<u8>,
    r: Result<(), WavUtilsError>,
    wav: ReadWav,
)
    requires
        0 < x.len() <= 32767,
        x[0].len() * x.len() <= MAX_SAMPLES,
        writes_block(x, sr, bytes, r),
        opened(bytes, wav),
    ensures
        wav.channels == x.len(),
        wav.sr == sr,
        wav.len == x[0].len(),
        wav.dtype is Int,
        wav.file().remaining.len() == x[0].len() * x.len(),
{
    lemma_place(x[0].len() as int, 0, x.len() as int);
}

/// By channels, a file has sample `t * channels + c` of those that are left in
/// frame `t` of channel `c`.
pub proof fn law_file_channels(file: WavFile, t: int, c: int)
    requires
        file.channels > 0,
        all_ok(file.remaining),
        0 <= c < file.channels,
        0 <= t,
    ensures
        file_channels(file).len() == file.channels,
        t < file_channels(file)[c].len() <==> t * file.channels + c < file.remaining.len(),
        t * file.channels + c < file.remaining.len() ==> file.remaining[t * file.channels + c]
            == Ok::<i16, HoundErrorKind>(file_channels(file)[c][t]),
{
    law_deinterleaved_sample(file_samples(file), file.channels as nat, t, c);
    lemma_place(t, c, file.channels as int);
    if t * file.channels + c < file.remaining.len() {
        assert(file.remaining[t * file.channels + c] is Ok);
    }
}

/// In file order, a file has the samples that are left, one by one.
pub proof fn law_file_samples(file: WavFile, i: int)
    requires
        all_ok(file.remaining),
        0 <= i < file.remaining.len(),
    ensures
        file_samples(file).len() == file.remaining.len(),
        file.remaining[i] == Ok::<i16, HoundErrorKind>(file_samples(file)[i]),
{
    law_decoded_value(file.remaining, i);
}

/// A write to a stream or a checkpoint of it.
pub enum StreamCall {
    /// The first `n` frames of a block were written.
    Write { x: Seq<Seq<i16>>, n: nat },
    /// The file was checkpointed.
    Flush,
}

/// A stream from its start on: after every call the file is in the next state.
pub struct StreamRun {
    /// The number of channels.
    pub channels: u16,
    /// The number of frames per second.
    pub sample_rate: u32,
    /// The states of the file.
    pub states: Seq<SinkState>,
    /// The calls.
    pub calls: Seq<StreamCall>,
    /// What the calls returned.
    pub results: Seq<Result<(), WavUtilsError>>,
}

impl StreamRun {
    /// This is a stream that was started for these sizes and given blocks with
    /// all channels.
    pub open spec fn made(self) -> bool {
        &&& self.channels > 0
        &&& self.states.len() == self.calls.len() + 1
        &&& self.results.len() == self.calls.len()
        &&& stream_starts(self.sample_rate, self.channels, self.states[0])
        &&& forall|i: int|
            0 <= i < self.calls.len() ==> match #[trigger] self.calls[i] {
                StreamCall::Write { x, n } => {
                    &&& x.len() == self.channels
                    &&& holds_frames(x, n)
                    &&& stream_takes(self.states[i], self.states[i + 1], x, n, self.results[i])
                },
                StreamCall::Flush => stream_flushes(
                    self.states[i],
                    self.states[i + 1],
                    self.results[i],
                ),
            }
    }

    /// All that was written to channel `c` in the first `i` calls.
    pub open spec fn given(self, c: int, i: int) -> Seq<i16>
        decreases i,
    {
        if i <= 0 {
            Seq::empty()
        } else {
            match self.calls[i - 1] {
                StreamCall::Write { x, n } => self.given(c, i - 1) + x[c].take(n as int),
                StreamCall::Flush => self.given(c, i - 1),
            }
        }
    }

    /// How many calls had been made when the file was last checkpointed, of
    /// the first `i` calls.
    pub open spec fn flushed(self, i: int) -> Option<int>
        decreases i,
    {
        if i <= 0 {
            None
        } else if self.calls[i - 1] is Flush {
            Some(i)
        } else {
            self.flushed(i - 1)
        }
    }
}

/// What a stream holds after `i` calls.
proof fn lemma_stream(run: StreamRun, i: int, c: int, t: int)
    requires
        run.made(),
        0 <= i <= run.calls.len(),
        0 <= c < run.channels,
        0 <= t,
    ensures
        run.states[i].channels == run.channels,
        run.states[i].sample_rate == run.sample_rate,
        run.states[i].intact,
        run.states[i].bytes_final == run.states[0].bytes_final,
        i > 0 ==> run.results[i - 1] is Ok,
        run.states[i].written.len() == run.given(c, i).len() * run.channels,
        t < run.given(c, i).len() ==> run.states[i].written[t * run.channels + c] == run.given(
            c,
            i,
        )[t],
        run.states[i].playable(),
        match run.flushed(i) {
            Some(k) => 0 < k <= i && run.states[i].checkpoint == Some(run.states[k].written),
            None => run.states[i].checkpoint is None,
        },
    decreases i,
{
    let w = run.channels as int;
    if i == 0 {
        assert(run.given(c, i).len() * w == 0) by (nonlinear_arith)
            requires
                run.given(c, i).len() == 0,
        ;
    } else {
        let k = i - 1;
        lemma_stream(run, k, c, t);
        let before = run.given(c, k);
        let file = run.states[k];
        lemma_place(before.len() as int, 0, w);
        match run.calls[k] {
            StreamCall::Write { x, n } => {
                assert(x[c].len() >= n);
                assert((before.len() + n) * w == before.len() * w + n * w) by (nonlinear_arith);
                assert(interleaved(x, n).len() == n * w);
                assert(run.states[k + 1].written == file.written + interleaved(x, n));
                if t < before.len() {
                    assert(t * w + w <= before.len() * w) by (nonlinear_arith)
                        requires
                            t + 1 <= before.len(),
                            0 < w,
                    ;
                } else if t < before.len() + n {
                    let u = t - before.len();
                    law_interleaved_sample(x, n, u, c);
                    assert(u * w == t * w - before.len() * w) by (nonlinear_arith)
                        requires
                            u == t - before.len(),
                    ;
                    lemma_place(u, c, w);
                }
            },
            StreamCall::Flush => {
                assert(run.states[k + 1].written == file.written);
            },
        }
    }
}

/// Every write and checkpoint of a stream succeeds, and completing it gives
/// the file of all frames that were written, from the first call to the last,
/// each sample in its place.
pub proof fn law_stream_makes_the_file(
    run: StreamRun,
    r: Result<(), WavUtilsError>,
    i: int,
    t: int,
    c: int,
)
    requires
        run.made(),
        run.channels <= 32767,
        run.states.last().written.len() <= MAX_SAMPLES,
        stream_ends(run.states.last(), r),
        0 <= i < run.calls.len(),
        0 <= c < run.channels,
        0 <= t < run.given(c, run.calls.len() as int).len(),
    ensures
        run.results[i] is Ok,
        r is Ok,
        wav_open(run.states[0].bytes_final) matches Ok(file) && {
            let frames = run.given(c, run.calls.len() as int);
            &&& file.channels == run.channels
            &&& file.sample_rate == run.sample_rate
            &&& file.n_samples == frames.len() * run.channels
            &&& file.remaining.len() == frames.len() * run.channels
            &&& file.remaining[t * run.channels + c] == Ok::<i16, HoundErrorKind>(frames[t])
        },
{
    let last = run.calls.len() as int;
    lemma_stream(run, i + 1, c, t);
    lemma_stream(run, last, c, t);
    let n = run.given(c, last).len();
    lemma_place(n as int, 0, run.channels as int);
    assert(t * run.channels + run.channels <= n * run.channels) by (nonlinear_arith)
        requires
            t + 1 <= n,
    ;
    lemma_place(t, c, run.channels as int);
    law_written_samples_are_opened(
        run.states[last].written,
        run.channels,
        run.sample_rate,
        run.states[last].bytes_final,
        r,
        t * run.channels + c,
    );
}

/// Were a stream to end after any call, its bytes would open as the frames
/// that were written before the last checkpoint.
pub proof fn law_interrupted_stream_is_playable(run: StreamRun, i: int, k: int, t: int, c: int)
    requires
        run.made(),
        run.channels <= 32767,
        0 <= i <= run.calls.len(),
        run.flushed(i) == Some(k),
        run.given(c, k).len() * run.channels <= MAX_SAMPLES,
        0 <= c < run.channels,
        0 <= t < run.given(c, k).len(),
    ensures
        wav_open(run.states[i].bytes_now) matches Ok(file) && {
            &&& file.channels == run.channels
            &&& file.sample_rate == run.sample_rate
            &&& file.n_samples == run.given(c, k).len() * run.channels
            &&& file.remaining.len() == run.given(c, k).len() * run.channels
            &&& file.remaining[t * run.channels + c] == Ok::<i16, HoundErrorKind>(
                run.given(c, k)[t],
            )
        },
{
    lemma_stream(run, i, c, t);
    lemma_stream(run, k, c, t);
    let n = run.given(c, k).len();
    assert(t * run.channels + run.channels <= n * run.channels) by (nonlinear_arith)
        requires
            t + 1 <= n,
    ;
    lemma_place(t, c, run.channels as int);
    law_checkpoint_is_opened(run.states[i], t * run.channels + c);
}

/// A stream counts the frames that were written to it.
pub proof fn law_stream_counts_frames(run: StreamRun, i: int, c: int)
    requires
        run.made(),
        0 <= i <= run.calls.len(),
        0 <= c < run.channels,
    ensures
        run.states[i].frames() == run.given(c, i).len(),
        run.states[i].whole_frames(),
{
    lemma_stream(run, i, c, 0);
    lemma_place(run.given(c, i).len() as int, 0, run.channels as int);
}

/// The error for an unfinished frame says that it is one.
pub proof fn law_unfinished_error(e: WavUtilsError)
    ensures
        is_unfinished_error(e) <==> e is HoundError && e.spec_hound_kind() == Some(
            HoundErrorKind::UnfinishedSample,
        ),
{
}

/// While a file is playable, its bytes open as the samples that were last
/// flushed.
pub proof fn law_checkpoint_is_opened(state: SinkState, i: int)
    requires
        0 < state.channels <= 32767,
        state.playable(),
        state.checkpoint is Some,
        state.checkpoint->Some_0.len() <= MAX_SAMPLES,
        0 <= i < state.checkpoint->Some_0.len(),
    ensures
        wav_open(state.bytes_now) matches Ok(file) && {
            &&& file.channels == state.channels
            &&& file.sample_rate == state.sample_rate
            &&& file.n_samples == state.checkpoint->Some_0.len()
            &&& file.remaining.len() == state.checkpoint->Some_0.len()
            &&& file.remaining[i] == Ok::<i16, HoundErrorKind>(state.checkpoint->Some_0[i])
        },
{
}

/// The frames of a file that is being written take all its samples but those
/// of an unfinished frame, and all of them just where there is none.
pub proof fn law_frames_of_a_file(state: SinkState)
    requires
        state.channels > 0,
    ensures
        state.frames() * state.channels <= state.written.len(),
        state.written.len() < state.frames() * state.channels + state.channels,
        state.whole_frames() <==> state.frames() * state.channels == state.written.len(),
{
    lemma_place_of(state.written.len() as int, state.channels as int);
}

/// A file is as long as its length fields can say: the bytes of all samples
/// and 60 more fit 32 bits, and those of one sample more would not. As many
/// channels are read back as the 16 bits for the bytes of a frame can say.
pub proof fn law_limits()
    ensures
        2 * MAX_SAMPLES + 60 <= u32::MAX,
        2 * (MAX_SAMPLES + 1) + 60 > u32::MAX,
        2 * MAX_CHANNELS <= u16::MAX,
        2 * (MAX_CHANNELS + 1) > u16::MAX,
{
}

/// A file can be written just where it has channels and a rate, and no more
/// samples per second than half of what 32 bits can count.
pub proof fn law_writable(channels: u16, sample_rate: u32)
    ensures
        writable(channels, sample_rate) <==> 0 < channels * sample_rate <= 0x7fff_ffff,
{
    assert(sample_rate * 2 * channels == 2 * (channels * sample_rate)) by (nonlinear_arith);
    assert(0 < channels * sample_rate <==> channels > 0 && sample_rate > 0) by (nonlinear_arith);
}

} // verus!
