//! Writing of 16-bit wav files, whole or block by block.

use vstd::prelude::*;

use crate::array::SampleArray;
#[allow(unused_imports)]
use crate::array::{array_grid, Grid};
use crate::codec::{
    close_sink, flush_sink, open_sink, put_sample, sink_len, PcmSink, SampleFormat, WavSpec,
    MAX_SAMPLES,
};
#[allow(unused_imports)]
use crate::codec::{opens_as, sink_state, wav_bytes, writable, SinkState};
use crate::error::{hound_result, WavUtilsError};
#[allow(unused_imports)]
use crate::error::error_kind;
use crate::layout::interleave;
#[allow(unused_imports)]
use crate::laws::law_frames_written_counts_frames;
#[allow(unused_imports)]
use crate::layout::{block, has_frames, holds_frames, interleaved, lemma_place};

verus! {

/// The number of channels that a header gives for `n` channels: the field has
/// 16 bits.
pub open spec fn header_channels(n: nat) -> u16 {
    (n % 65536) as u16
}

/// The number of channels that a header gives for `n` channels.
fn count_channels(n: usize) -> (channels: u16)
    ensures
        channels == header_channels(n as nat),
{
    assert(n as u16 == (n % 65536usize) as u16) by (bit_vector);
    #[verifier::truncate]
    let channels: u16 = n as u16;
    channels
}

/// The properties of a 16-bit file.
fn pcm16(channels: u16, sample_rate: u32) -> (spec: WavSpec)
    ensures
        spec == (WavSpec {
            channels,
            sample_rate,
            bits_per_sample: 16,
            sample_format: SampleFormat::Int,
        }),
{
    WavSpec { channels, sample_rate, bits_per_sample: 16, sample_format: SampleFormat::Int }
}

/// The error for samples that do not make whole frames.
pub open spec fn is_unfinished_error(e: WavUtilsError) -> bool {
    e is HoundError && error_kind(e->HoundError_0) is UnfinishedSample
}

/// `bytes` are the 16-bit wav file with these samples, and open as it.
pub open spec fn is_wav(bytes: Seq<u8>, channels: u16, sample_rate: u32, samples: Seq<i16>) -> bool {
    &&& bytes == wav_bytes(channels, sample_rate, samples)
    &&& opens_as(bytes, channels, sample_rate, samples)
}

/// What writing interleaved samples as a file leaves, and returns.
pub open spec fn writes(
    samples: Seq<i16>,
    ch: u16,
    sr: u32,
    bytes: Seq<u8>,
    r: Result<(), WavUtilsError>,
) -> bool {
    &&& r is Ok <==> samples.len() % (ch as nat) == 0
    &&& bytes == wav_bytes(ch, sr, samples)
    &&& match r {
        Ok(()) => is_wav(bytes, ch, sr, samples),
        Err(e) => is_unfinished_error(e),
    }
}

/// What writing the first `n` frames of a block as a file leaves, and returns.
pub open spec fn writes_frames(
    x: Seq<Seq<i16>>,
    n: nat,
    sr: u32,
    bytes: Seq<u8>,
    r: Result<(), WavUtilsError>,
) -> bool {
    writes(interleaved(x, n), header_channels(x.len()), sr, bytes, r)
}

/// What writing a block as a file leaves, and returns.
pub open spec fn writes_block(
    x: Seq<Seq<i16>>,
    sr: u32,
    bytes: Seq<u8>,
    r: Result<(), WavUtilsError>,
) -> bool {
    writes_frames(x, x[0].len(), sr, bytes, r)
}

/// What writing an array as a file leaves, and returns.
pub open spec fn writes_grid(
    grid: Grid,
    sr: u32,
    bytes: Seq<u8>,
    r: Result<(), WavUtilsError>,
) -> bool {
    writes_frames(grid.rows, grid.cols, sr, bytes, r)
}

/// A file that was just started.
pub open spec fn stream_starts(sr: u32, channels: u16, file: SinkState) -> bool {
    &&& file.channels == channels
    &&& file.sample_rate == sr
    &&& file.written == Seq::<i16>::empty()
    &&& file.intact
    &&& file.checkpoint is None
}

/// What writing the first `n` frames of a block to a file does.
pub open spec fn stream_takes(
    before: SinkState,
    after: SinkState,
    x: Seq<Seq<i16>>,
    n: nat,
    r: Result<(), WavUtilsError>,
) -> bool {
    &&& r is Ok
    &&& after.same_file(before)
    &&& after.written == before.written + interleaved(x, n)
    &&& after.intact == before.intact
    &&& after.checkpoint == before.checkpoint
    &&& before.intact && before.playable() ==> after.playable()
}

/// What checkpointing a file does.
pub open spec fn stream_flushes(
    before: SinkState,
    after: SinkState,
    r: Result<(), WavUtilsError>,
) -> bool {
    &&& r is Ok <==> before.whole_frames()
    &&& after.same_file(before)
    &&& after.written == before.written
    &&& after.intact == (before.intact && r is Ok)
    &&& r is Ok ==> after.checkpoint == Some(before.written)
    &&& r is Ok && before.intact ==> after.playable() && is_wav(
        after.bytes_now,
        before.channels,
        before.sample_rate,
        before.written,
    )
    &&& r matches Err(e) ==> is_unfinished_error(e)
}

/// What completing a file does.
pub open spec fn stream_ends(file: SinkState, r: Result<(), WavUtilsError>) -> bool {
    file.intact ==> writes(file.written, file.channels, file.sample_rate, file.bytes_final, r)
}

/// Appends the samples to a file.
fn put_samples(sink: &mut PcmSink<'_>, samples: &[i16]) -> (r: Result<(), WavUtilsError>)
    requires
        sink_state(*old(sink)).written.len() + samples@.len() <= MAX_SAMPLES,
    ensures
        r is Ok,
        sink_state(*final(sink)).same_file(sink_state(*old(sink))),
        sink_state(*final(sink)).written == sink_state(*old(sink)).written + samples@,
        sink_state(*final(sink)).intact == sink_state(*old(sink)).intact,
        sink_state(*final(sink)).checkpoint == sink_state(*old(sink)).checkpoint,
        sink_state(*old(sink)).intact && sink_state(*old(sink)).playable() ==> sink_state(
            *final(sink),
        ).playable(),
{
    let ghost before = sink_state(*sink);
    let mut i: usize = 0;
    assert(before.written + samples@.take(0) =~= before.written);
    while i < samples.len()
        invariant
            i <= samples@.len(),
            before == sink_state(*old(sink)),
            before.written.len() + samples@.len() <= MAX_SAMPLES,
            sink_state(*sink).same_file(before),
            sink_state(*sink).written == before.written + samples@.take(i as int),
            sink_state(*sink).intact == before.intact,
            sink_state(*sink).checkpoint == before.checkpoint,
            before.intact && before.playable() ==> sink_state(*sink).playable(),
        decreases samples@.len() - i,
    {
        match hound_result(put_sample(sink, samples[i])) {
            Ok(()) => {},
            Err(e) => {
                return Err(e);
            },
        }
        assert(before.written + samples@.take(i as int).push(samples@[i as int]) =~= (before.written
            + samples@.take(i as int)).push(samples@[i as int]));
        assert(samples@.take(i as int).push(samples@[i as int]) =~= samples@.take(i + 1));
        i += 1;
    }
    assert(samples@.take(i as int) =~= samples@);
    Ok(())
}

/// Writes interleaved samples as a 16-bit wav file, in place of what `buf`
/// holds. An unfinished last frame is written too, and then reported.
pub fn write_wav_iter(buf: &mut Vec<u8>, samples: &[i16], sr: u32, ch: u16) -> (r: Result<
    (),
    WavUtilsError,
>)
    requires
        writable(ch, sr),
        samples@.len() <= MAX_SAMPLES,
    ensures
        writes(samples@, ch, sr, final(buf)@, r),
        r is Ok <==> samples@.len() % (ch as nat) == 0,
        final(buf)@ == wav_bytes(ch, sr, samples@),
        match r {
            Ok(()) => is_wav(final(buf)@, ch, sr, samples@),
            Err(e) => is_unfinished_error(e),
        },
{
    buf.clear();
    let mut sink = match hound_result(open_sink(buf, pcm16(ch, sr))) {
        Ok(sink) => sink,
        Err(e) => {
            return Err(e);
        },
    };
    match put_samples(&mut sink, samples) {
        Ok(()) => {},
        Err(e) => {
            return Err(e);
        },
    }
    assert(Seq::<i16>::empty() + samples@ =~= samples@);
    hound_result(close_sink(sink))
}

/// Writes a block as a 16-bit wav file, in place of what `buf` holds. The
/// first channel says how many frames the file has.
pub fn write_wav(buf: &mut Vec<u8>, x: &[Vec<i16>], sr: u32) -> (r: Result<(), WavUtilsError>)
    requires
        x@.len() > 0,
        holds_frames(block(x@), x@[0]@.len()),
        x@.len() * x@[0]@.len() <= MAX_SAMPLES,
        writable(header_channels(x@.len()), sr),
    ensures
        ({
            let ch = header_channels(x@.len());
            let samples = interleaved(block(x@), x@[0]@.len());
            &&& r is Ok <==> samples.len() % (ch as nat) == 0
            &&& final(buf)@ == wav_bytes(ch, sr, samples)
            &&& match r {
                Ok(()) => is_wav(final(buf)@, ch, sr, samples),
                Err(e) => is_unfinished_error(e),
            }
        }),
        writes_block(block(x@), sr, final(buf)@, r),
        x@.len() <= 65535 ==> r is Ok && is_wav(
            final(buf)@,
            x@.len() as u16,
            sr,
            interleaved(block(x@), x@[0]@.len()),
        ),
{
    let ch = count_channels(x.len());
    let samples = interleave(x, x[0].len());
    proof {
        lemma_place(x@[0]@.len() as int, 0, x@.len() as int);
        assert(x@[0]@.len() * x@.len() == x@.len() * x@[0]@.len()) by (nonlinear_arith);
    }
    write_wav_iter(buf, samples.as_slice(), sr, ch)
}

/// The columns of an array, one after the other.
fn column_by_column(x: &SampleArray) -> (samples: Vec<i16>)
    ensures
        samples@ == interleaved(array_grid(*x).rows, array_grid(*x).cols),
{
    let (rows, cols) = x.shape();
    let ghost grid = array_grid(*x);
    let mut samples: Vec<i16> = Vec::new();
    let mut t: usize = 0;
    while t < cols
        invariant
            t <= cols,
            cols == grid.cols,
            grid == array_grid(*x),
            samples@ == interleaved(grid.rows, t as nat),
        decreases cols - t,
    {
        let ghost before = samples@;
        let mut column = x.column(t);
        samples.append(&mut column);
        proof {
            let width = grid.rows.len() as int;
            assert((t + 1) * width == t * width + width) by (nonlinear_arith);
            let after = interleaved(grid.rows, (t + 1) as nat);
            assert forall|i: int| 0 <= i < after.len() implies samples@[i] == after[i] by {
                if i >= before.len() {
                    lemma_place(t as int, i - before.len(), width);
                }
            }
            assert(samples@ =~= after);
        }
        t += 1;
    }
    samples
}

/// Writes an array, one row per channel, as a 16-bit wav file, in place of
/// what `buf` holds.
pub fn write_wav_arr2(buf: &mut Vec<u8>, x: &SampleArray, sr: u32) -> (r: Result<
    (),
    WavUtilsError,
>)
    requires
        array_grid(*x).cols * array_grid(*x).rows.len() <= MAX_SAMPLES,
        writable(header_channels(array_grid(*x).rows.len()), sr),
    ensures
        has_frames(array_grid(*x).rows, array_grid(*x).cols),
        ({
            let ch = header_channels(array_grid(*x).rows.len());
            let samples = interleaved(array_grid(*x).rows, array_grid(*x).cols);
            &&& r is Ok <==> samples.len() % (ch as nat) == 0
            &&& final(buf)@ == wav_bytes(ch, sr, samples)
            &&& match r {
                Ok(()) => is_wav(final(buf)@, ch, sr, samples),
                Err(e) => is_unfinished_error(e),
            }
        }),
        writes_grid(array_grid(*x), sr, final(buf)@, r),
        array_grid(*x).rows.len() <= 65535 ==> r is Ok && is_wav(
            final(buf)@,
            array_grid(*x).rows.len() as u16,
            sr,
            interleaved(array_grid(*x).rows, array_grid(*x).cols),
        ),
{
    let (rows, cols) = x.shape();
    let ch = count_channels(rows);
    let samples = column_by_column(x);
    proof {
        if rows > 0 {
            lemma_place(cols as int, 0, rows as int);
        }
    }
    write_wav_iter(buf, samples.as_slice(), sr, ch)
}

/// Incremental writer of a 16-bit wav file.
///
/// Counterpart of [`write_wav_arr2`] for producers that emit audio in blocks
/// rather than as one array. What it writes is byte for byte what
/// [`write_wav_arr2`] writes for the same samples.
pub struct WavWriterStream<'a> {
    sink: PcmSink<'a>,
    channels: usize,
}

impl<'a> WavWriterStream<'a> {
    /// The file that is being written.
    pub closed spec fn file(&self) -> SinkState {
        sink_state(self.sink)
    }

    /// There is a channel, the stream knows how many there are, and the
    /// samples fit the file.
    pub closed spec fn wf(&self) -> bool {
        &&& self.file().channels > 0
        &&& self.channels == self.file().channels
        &&& self.file().written.len() <= MAX_SAMPLES
    }

    /// Starts a file in place of what `buf` holds.
    pub fn create(buf: &'a mut Vec<u8>, sr: u32, channels: u16) -> (r: Result<
        WavWriterStream<'a>,
        WavUtilsError,
    >)
        requires
            writable(channels, sr),
        ensures
            match r {
                Ok(stream) => {
                    &&& stream.wf()
                    &&& stream.file().channels == channels
                    &&& stream.file().sample_rate == sr
                    &&& stream.file().written == Seq::<i16>::empty()
                    &&& stream_starts(sr, channels, stream.file())
                    &&& stream.file().whole_frames()
                    &&& stream.file().intact
                    &&& stream.file().checkpoint is None
                    &&& stream.file().bytes_final == final(buf)@
                },
                Err(_) => false,
            },
    {
        buf.clear();
        match hound_result(open_sink(buf, pcm16(channels, sr))) {
            Ok(sink) => Ok(WavWriterStream { sink, channels: channels as usize }),
            Err(e) => Err(e),
        }
    }

    /// Writes the first `n` frames of a channel-major block, interleaving
    /// them. What was checkpointed stays playable.
    pub fn write_deinterleaved(&mut self, chans: &[Vec<i16>], n: usize) -> (r: Result<
        (),
        WavUtilsError,
    >)
        requires
            old(self).wf(),
            chans@.len() == old(self).file().channels,
            holds_frames(block(chans@), n as nat),
            old(self).file().written.len() + n * chans@.len() <= MAX_SAMPLES,
        ensures
            r is Ok,
            final(self).wf(),
            final(self).file().same_file(old(self).file()),
            final(self).file().written == old(self).file().written + interleaved(
                block(chans@),
                n as nat,
            ),
            stream_takes(old(self).file(), final(self).file(), block(chans@), n as nat, r),
            final(self).file().whole_frames() == old(self).file().whole_frames(),
            final(self).file().intact == old(self).file().intact,
            final(self).file().checkpoint == old(self).file().checkpoint,
            old(self).file().intact && old(self).file().playable()
                ==> final(self).file().playable(),
    {
        let samples = interleave(chans, n);
        proof {
            law_frames_written_counts_frames(self.file().written, block(chans@), n as nat);
        }
        put_samples(&mut self.sink, samples.as_slice())
    }

    /// The number of frames written so far.
    pub fn frames_written(&self) -> (n: u32)
        requires
            self.wf(),
        ensures
            n == self.file().written.len() / (self.file().channels as nat),
            n == self.file().frames(),
    {
        sink_len(&self.sink) / self.channels as u32
    }

    /// Checkpoints the header, so that an interrupted run still leaves a
    /// playable file.
    pub fn flush(&mut self) -> (r: Result<(), WavUtilsError>)
        requires
            old(self).wf(),
        ensures
            stream_flushes(old(self).file(), final(self).file(), r),
            r is Ok <==> old(self).file().whole_frames(),
            final(self).wf(),
            final(self).file().same_file(old(self).file()),
            final(self).file().written == old(self).file().written,
            final(self).file().intact == (old(self).file().intact && r is Ok),
            final(self).file().checkpoint == if r is Ok {
                Some(old(self).file().written)
            } else {
                old(self).file().checkpoint
            },
            old(self).file().intact ==> final(self).file().bytes_now == wav_bytes(
                old(self).file().channels,
                old(self).file().sample_rate,
                old(self).file().written,
            ),
            match r {
                Ok(()) => old(self).file().intact ==> final(self).file().playable() && is_wav(
                    final(self).file().bytes_now,
                    old(self).file().channels,
                    old(self).file().sample_rate,
                    old(self).file().written,
                ),
                Err(e) => is_unfinished_error(e),
            },
    {
        hound_result(flush_sink(&mut self.sink))
    }

    /// Completes the file.
    pub fn finalize(self) -> (r: Result<(), WavUtilsError>)
        requires
            self.wf(),
        ensures
            stream_ends(self.file(), r),
            r is Ok <==> self.file().whole_frames(),
            self.file().intact ==> self.file().bytes_final == wav_bytes(
                self.file().channels,
                self.file().sample_rate,
                self.file().written,
            ),
            match r {
                Ok(()) => self.file().intact ==> is_wav(
                    self.file().bytes_final,
                    self.file().channels,
                    self.file().sample_rate,
                    self.file().written,
                ),
                Err(e) => is_unfinished_error(e),
            },
    {
        hound_result(close_sink(self.sink))
    }
}

} // verus!
