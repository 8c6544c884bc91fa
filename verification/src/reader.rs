//! Reading of wav files, whole or block by block.

use std::io::Cursor;

use hound::WavReader;
use vstd::prelude::*;

#[allow(unused_imports)]
use crate::array::array_grid;
use crate::array::SampleArray;
use crate::codec::{next_sample, open_reader, reader_len, reader_spec, SampleFormat};
#[allow(unused_imports)]
use crate::codec::{reader_file, wav_open, WavFile};
#[allow(unused_imports)]
use crate::error::{error_kind, HoundErrorKind};
use crate::error::{hound_result, WavUtilsError};
use crate::layout::{deinterleave, grow, overlay};
#[allow(unused_imports)]
use crate::layout::{
    block, channel, channel_len, deinterleaved, grown, lemma_place,
    lemma_place_of, overlaid,
};

verus! {

/// Decoded samples, up to the first one that could not be decoded.
#[derive(Debug)]
pub struct Pulled<T> {
    /// The samples.
    pub values: Vec<T>,
    /// Why the sample after them could not be decoded, where that ended them.
    pub failure: Option<hound::Error>,
}

/// The first `n` elements of a sequence, or all where it has fewer.
pub open spec fn first<A>(s: Seq<A>, n: nat) -> Seq<A> {
    if n <= s.len() {
        s.take(n as int)
    } else {
        s
    }
}

/// How many results at the start of a sequence are successes.
pub open spec fn ok_run<T, E>(s: Seq<Result<T, E>>) -> nat
    decreases s.len(),
{
    if s.len() == 0 || s[0] is Err {
        0
    } else {
        1 + ok_run(s.skip(1))
    }
}

/// The values of successful results.
pub open spec fn ok_values<T, E>(s: Seq<Result<T, E>>) -> Seq<T> {
    Seq::new(s.len(), |i: int| s[i]->Ok_0)
}

/// All results are successes.
pub open spec fn all_ok<T, E>(s: Seq<Result<T, E>>) -> bool {
    forall|i: int| 0 <= i < s.len() ==> (#[trigger] s[i]) is Ok
}

/// `ok_run` counts the successes before the first failure.
pub proof fn lemma_ok_run<T, E>(s: Seq<Result<T, E>>, k: nat)
    requires
        k <= s.len(),
        forall|i: int| 0 <= i < k ==> (#[trigger] s[i]) is Ok,
        k < s.len() ==> s[k as int] is Err,
    ensures
        ok_run(s) == k,
    decreases s.len(),
{
    if k > 0 {
        let rest = s.skip(1);
        assert forall|i: int| 0 <= i < k - 1 implies (#[trigger] rest[i]) is Ok by {
            assert(rest[i] == s[i + 1]);
        }
        lemma_ok_run(rest, (k - 1) as nat);
    }
}

/// The results that `ok_run` counts are successes, and the one after them is
/// not.
pub proof fn lemma_ok_prefix<T, E>(s: Seq<Result<T, E>>)
    ensures
        ok_run(s) <= s.len(),
        forall|i: int| 0 <= i < ok_run(s) ==> (#[trigger] s[i]) is Ok,
        ok_run(s) < s.len() ==> s[ok_run(s) as int] is Err,
    decreases s.len(),
{
    if s.len() > 0 && s[0] is Ok {
        let rest = s.skip(1);
        lemma_ok_prefix(rest);
        assert forall|i: int| 0 <= i < ok_run(s) implies (#[trigger] s[i]) is Ok by {
            if i > 0 {
                assert(rest[i - 1] is Ok);
            }
        }
    }
}

/// The samples that are left of a file, in file order.
pub open spec fn file_samples(file: WavFile) -> Seq<i16> {
    ok_values(file.remaining)
}

/// The samples that are left of a file, by channels.
pub open spec fn file_channels(file: WavFile) -> Seq<Seq<i16>> {
    deinterleaved(file_samples(file), file.channels as nat)
}

/// `wav` is the file with these bytes, opened, with nothing read of it.
pub open spec fn opened(bytes: Seq<u8>, wav: ReadWav) -> bool {
    &&& wav.wf()
    &&& wav_open(bytes) == Ok::<WavFile, HoundErrorKind>(wav.file())
    &&& wav.file().remaining.len() == wav.file().n_samples
}

/// What pulling up to `want` samples gives: of the samples to be decoded,
/// `rem`, those at the start that decode, and the failure that ended them, if
/// one did. It leaves `left`.
pub open spec fn pulled_from<T>(
    rem: Seq<Result<T, HoundErrorKind>>,
    left: Seq<Result<T, HoundErrorKind>>,
    want: nat,
    got: Pulled<T>,
) -> bool {
    let head = first(rem, want);
    let k = ok_run(head);
    &&& k <= head.len()
    &&& got.values@ == ok_values(head.take(k as int))
    &&& match got.failure {
        None => k == head.len() && left == rem.skip(k as int),
        Some(e) => {
            &&& k < head.len()
            &&& head[k as int] == Err::<T, HoundErrorKind>(error_kind(e))
            &&& left == rem.skip((k + 1) as int)
        },
    }
}

/// What pulling up to `want` samples from a file gives, and what it leaves.
pub open spec fn pulls(before: WavFile, after: WavFile, want: nat, got: Pulled<i16>) -> bool {
    &&& pulled_from(before.remaining, after.remaining, want, got)
    &&& after == (WavFile { remaining: after.remaining, ..before })
}

/// What laying up to `max_frames` frames of pulled samples over the first
/// `channels` channels of a block does.
pub open spec fn lays_frames<T>(
    pulled: Pulled<T>,
    out_before: Seq<Seq<T>>,
    out_after: Seq<Seq<T>>,
    channels: nat,
    max_frames: nat,
    r: Result<usize, WavUtilsError>,
) -> bool {
    let have = pulled.values@.len();
    let want = max_frames * channels;
    match r {
        Ok(n) => {
            &&& have >= want || pulled.failure is None
            &&& n == if have >= want {
                max_frames
            } else {
                have / channels
            }
            &&& out_after == overlaid(out_before, pulled.values@, n as nat * channels, channels)
        },
        Err(e) => {
            &&& have < want
            &&& pulled.failure == Some(e->HoundError_0)
            &&& e is HoundError
            &&& out_after == overlaid(out_before, pulled.values@, have, channels)
        },
    }
}

/// What reading up to `max_frames` frames of `channels` channels does.
///
/// Of the samples to be decoded, `rem`, it leaves `left`. The block `out` is
/// grown to `max_frames` per channel with `zero`, and the samples that decode
/// are laid over it. Where all of them do, the result is the number of whole
/// frames, a number below `max_frames` means that nothing is left, and samples
/// beyond that number stay as they were; else it is the first failure.
pub open spec fn reads_frames<T, E>(
    rem: Seq<Result<T, E>>,
    left: Seq<Result<T, E>>,
    out_before: Seq<Seq<T>>,
    out_after: Seq<Seq<T>>,
    channels: nat,
    max_frames: nat,
    zero: T,
    r: Result<nat, E>,
) -> bool {
    let head = first(rem, max_frames * channels);
    let k = ok_run(head);
    let room = grown(out_before, max_frames, zero);
    match r {
        Ok(n) => {
            &&& k == head.len()
            &&& n == k / channels
            &&& n <= max_frames
            &&& n < max_frames ==> left.len() == 0
            &&& out_after == overlaid(room, ok_values(head), n * channels, channels)
            &&& left == rem.skip(k as int)
        },
        Err(e) => {
            &&& k < head.len()
            &&& head[k as int] == Err::<T, E>(e)
            &&& out_after == overlaid(room, ok_values(head), k, channels)
            &&& left == rem.skip((k + 1) as int)
        },
    }
}

/// The result of reading frames, as numbers and kinds of failure.
pub open spec fn outcome(r: Result<usize, WavUtilsError>) -> Result<nat, HoundErrorKind> {
    match r {
        Ok(n) => Ok(n as nat),
        Err(e) => Err(error_kind(e->HoundError_0)),
    }
}

/// Pulls up to `want` samples from a reader. Stops where the file ends, and
/// at a sample that cannot be decoded.
fn pull_samples(reader: &mut WavReader<Cursor<Vec<u8>>>, want: usize) -> (got: Pulled<i16>)
    ensures
        pulls(reader_file(*old(reader)), reader_file(*final(reader)), want as nat, got),
{
    let ghost before = reader_file(*reader);
    let ghost head = first(before.remaining, want as nat);
    let mut values: Vec<i16> = Vec::new();
    let mut failure: Option<hound::Error> = None;
    let mut open: bool = true;
    assert(before.remaining.skip(0) =~= before.remaining);
    while open && values.len() < want
        invariant
            head == first(before.remaining, want as nat),
            values@.len() <= head.len(),
            head.len() <= want,
            forall|i: int|
                0 <= i < values@.len() ==> head[i] == Ok::<i16, HoundErrorKind>(
                    #[trigger] values@[i],
                ),
            open ==> failure is None && reader_file(*reader) == before.advanced(values@.len()),
            !open ==> match failure {
                None => values@.len() == head.len() && reader_file(*reader) == before.advanced(values@.len()),
                Some(e) => {
                    &&& values@.len() < head.len()
                    &&& head[values@.len() as int] == Err::<i16, HoundErrorKind>(error_kind(e))
                    &&& reader_file(*reader) == before.advanced(values@.len() + 1)
                },
            },
        decreases want - values@.len() + if open { 1int } else { 0int },
    {
        let ghost k = values@.len() as int;
        assert(k < before.remaining.len() ==> before.remaining.skip(k).skip(1)
            =~= before.remaining.skip(k + 1));
        match next_sample(reader) {
            None => {
                open = false;
            },
            Some(Ok(v)) => {
                values.push(v);
            },
            Some(Err(e)) => {
                failure = Some(e);
                open = false;
            },
        }
    }
    proof {
        assert forall|i: int| 0 <= i < values@.len() implies (#[trigger] head[i]) is Ok by {
            assert(head[i] == Ok::<i16, HoundErrorKind>(values@[i]));
        }
        lemma_ok_run(head, values@.len());
        assert(values@ =~= ok_values(head.take(values@.len() as int)));
    }
    Pulled { values, failure }
}

/// What is left to decode, as 16-bit samples.
///
/// Every remaining sample of the file decodes, which the caller vouches for.
fn read_wav_raw_i16(reader: &mut WavReader<Cursor<Vec<u8>>>) -> (values: Vec<i16>)
    requires
        all_ok(reader_file(*old(reader)).remaining),
        reader_file(*old(reader)).remaining.len() <= u32::MAX,
    ensures
        values@ == ok_values(reader_file(*old(reader)).remaining),
        reader_file(*final(reader)) == reader_file(*old(reader)).advanced(
            reader_file(*old(reader)).remaining.len(),
        ),
{
    let ghost rem = reader_file(*reader).remaining;
    let got = pull_samples(reader, usize::MAX);
    proof {
        lemma_ok_run(rem, rem.len());
        assert(rem.take(rem.len() as int) =~= rem);
    }
    got.values
}

/// How many of `n_samples` samples each of the channels has.
pub open spec fn frames_in(n_samples: int, channels: int) -> int {
    n_samples / channels
}

/// As many frames as there are take no more samples than there are, and one
/// more would.
pub proof fn law_frames_in(n_samples: int, channels: int)
    requires
        0 <= n_samples,
        0 < channels,
    ensures
        0 <= frames_in(n_samples, channels),
        frames_in(n_samples, channels) * channels <= n_samples,
        n_samples < frames_in(n_samples, channels) * channels + channels,
{
    lemma_place_of(n_samples, channels);
}

/// How many of `n_samples` samples each of the channels has.
pub fn frame_count(n_samples: u32, channels: u16) -> (frames: usize)
    requires
        channels > 0,
    ensures
        frames == n_samples / (channels as u32),
        frames == frames_in(n_samples as int, channels as int),
{
    n_samples as usize / channels as usize
}

/// Lays up to `max_frames` frames of pulled samples over the first `channels`
/// channels of the block `out`, and leaves further channels alone.
///
/// Returns the number of frames, which is below `max_frames` where the
/// samples ended; an unfinished last frame is discarded. Where a failure
/// ended the samples before there were `max_frames` frames, it is returned,
/// and all samples before it are in `out`.
pub fn read_frames_into<T: Copy>(
    pulled: Pulled<T>,
    out: &mut Vec<Vec<T>>,
    max_frames: usize,
    channels: usize,
) -> (r: Result<usize, WavUtilsError>)
    requires
        channels <= old(out)@.len(),
        forall|c: int|
            0 <= c < channels ==> max_frames <= (#[trigger] block(old(out)@)[c]).len(),
    ensures
        final(out)@.len() == old(out)@.len(),
        lays_frames(
            pulled,
            block(old(out)@),
            block(final(out)@),
            channels as nat,
            max_frames as nat,
            r,
        ),
{
    let Pulled { values, failure } = pulled;
    let ghost width = channels as nat;
    let ghost before = block(out@);
    if channels == 0 {
        overlay(out, values.as_slice(), 0, 0);
        return Ok(max_frames);
    }
    let whole = values.len() / channels;
    proof {
        lemma_place_of(values@.len() as int, channels as int);
        assert(whole * channels <= values@.len());
    }
    if whole >= max_frames {
        proof {
            assert(max_frames * channels <= whole * channels) by (nonlinear_arith)
                requires
                    max_frames <= whole,
            ;
            lemma_place(max_frames as int, 0, channels as int);
        }
        overlay(out, values.as_slice(), max_frames * channels, channels);
        return Ok(max_frames);
    }
    proof {
        assert((whole + 1) * channels <= max_frames * channels) by (nonlinear_arith)
            requires
                whole + 1 <= max_frames,
        ;
        assert((whole + 1) * channels == whole * channels + channels) by (nonlinear_arith);
        assert forall|c: int| 0 <= c < channels implies channel_len(values@.len(), c, width)
            <= #[trigger] before[c].len() by {}
    }
    match failure {
        Some(e) => {
            let k = values.len();
            overlay(out, values.as_slice(), k, channels);
            Err(WavUtilsError::from(e))
        },
        None => {
            proof {
                lemma_place(whole as int, 0, channels as int);
            }
            overlay(out, values.as_slice(), whole * channels, channels);
            Ok(whole)
        },
    }
}

/// Pulling samples and laying them over a grown block is reading frames.
proof fn lemma_laying_is_reading<T>(
    rem: Seq<Result<T, HoundErrorKind>>,
    left: Seq<Result<T, HoundErrorKind>>,
    pulled: Pulled<T>,
    out_before: Seq<Seq<T>>,
    out_after: Seq<Seq<T>>,
    channels: nat,
    max_frames: nat,
    zero: T,
    r: Result<usize, WavUtilsError>,
)
    requires
        channels > 0,
        pulled_from(rem, left, max_frames * channels, pulled),
        lays_frames(
            pulled,
            grown(out_before, max_frames, zero),
            out_after,
            channels,
            max_frames,
            r,
        ),
    ensures
        reads_frames(
            rem,
            left,
            out_before,
            out_after,
            channels,
            max_frames,
            zero,
            outcome(r),
        ),
{
    let head = first(rem, max_frames * channels);
    let k = ok_run(head);
    let room = grown(out_before, max_frames, zero);
    lemma_ok_prefix(head);
    assert(head.take(head.len() as int) =~= head);
    lemma_overlaid_prefix(room, ok_values(head.take(k as int)), ok_values(head), k, channels);
    lemma_place(max_frames as int, 0, channels as int);
    if let Ok(n) = r {
        lemma_place_of(k as int, channels as int);
        if n >= max_frames {
            assert(max_frames * channels <= n * channels) by (nonlinear_arith)
                requires
                    max_frames <= n,
            ;
        }
        lemma_overlaid_prefix(
            room,
            ok_values(head.take(k as int)),
            ok_values(head),
            n as nat * channels,
            channels,
        );
    }
}

/// Reads up to `max_frames` frames of samples of any type, which the caller
/// has pulled, into `out[ch][..n]`: for a file that is decoded elsewhere, what
/// [`ReadWav::read_frames`] is for one of integer samples.
///
/// Returns the number of frames read. A number below `max_frames` says that
/// the samples have ended; an unfinished last frame is discarded. `out` is
/// grown to `max_frames` per channel if needed, with `zero`; samples beyond
/// the returned count are left untouched and must not be read. A sample that
/// could not be decoded ends the block with an error.
pub fn read_pulled_frames<T: Copy>(
    pulled: Pulled<T>,
    out: &mut Vec<Vec<T>>,
    max_frames: usize,
    channels: usize,
    zero: T,
) -> (r: Result<usize, WavUtilsError>)
    requires
        0 < channels <= old(out)@.len(),
    ensures
        final(out)@.len() == old(out)@.len(),
        lays_frames(
            pulled,
            grown(block(old(out)@), max_frames as nat, zero),
            block(final(out)@),
            channels as nat,
            max_frames as nat,
            r,
        ),
        forall|rem: Seq<Result<T, HoundErrorKind>>, left: Seq<Result<T, HoundErrorKind>>|
            #[trigger]
            pulled_from(rem, left, max_frames as nat * channels as nat, pulled) ==> reads_frames(
                rem,
                left,
                block(old(out)@),
                block(final(out)@),
                channels as nat,
                max_frames as nat,
                zero,
                outcome(r),
            ),
{
    let ghost before = block(out@);
    let ghost all = pulled;
    grow(out, max_frames, zero);
    let r = read_frames_into(pulled, out, max_frames, channels);
    proof {
        assert forall|rem: Seq<Result<T, HoundErrorKind>>, left: Seq<Result<T, HoundErrorKind>>|
            #[trigger]
            pulled_from(rem, left, max_frames as nat * channels as nat, all) implies reads_frames(
            rem,
            left,
            before,
            block(out@),
            channels as nat,
            max_frames as nat,
            zero,
            outcome(r),
        ) by {
            lemma_laying_is_reading(
                rem,
                left,
                all,
                before,
                block(out@),
                channels as nat,
                max_frames as nat,
                zero,
                r,
            );
        }
    }
    r
}

/// Interleaved samples as an array of `len` columns, one row per channel.
pub fn frames_to_array(samples: Vec<i16>, len: usize, channels: u16) -> (r: Result<
    SampleArray,
    WavUtilsError,
>)
    requires
        channels > 0,
    ensures
        match r {
            Ok(array) => {
                &&& samples@.len() == len * channels
                &&& array_grid(array).cols == len
                &&& array_grid(array).rows == deinterleaved(samples@, channels as nat)
            },
            Err(e) => samples@.len() != len * channels && e is NdarrayShapeError,
        },
{
    let ghost data = samples@;
    let ghost width = channels as nat;
    match SampleArray::from_shape_vec(len, channels as usize, samples) {
        Ok(frames) => {
            let array = frames.transposed();
            proof {
                lemma_place(len as int, 0, width as int);
                assert forall|c: int| 0 <= c < width implies (#[trigger] array_grid(array).rows[c])
                    == deinterleaved(data, width)[c] by {
                    assert(array_grid(array).rows[c] =~= channel(data, c, width));
                }
                assert(array_grid(array).rows =~= deinterleaved(data, width));
            }
            Ok(array)
        },
        Err(e) => Err(e),
    }
}

/// A wav file in memory that is being read.
pub struct WavSource {
    inner: WavReader<Cursor<Vec<u8>>>,
}

impl WavSource {
    /// The file that is being read.
    pub closed spec fn file(&self) -> WavFile {
        reader_file(self.inner)
    }
}

/// A wav file of which the header has been read.
pub struct ReadWav {
    /// The file, with the samples that were not read yet.
    pub reader: WavSource,
    /// The number of channels.
    pub channels: usize,
    /// The number of frames per second.
    pub sr: usize,
    /// The number of frames in the whole file.
    pub len: usize,
    /// How the samples are stored.
    pub dtype: SampleFormat,
}

impl ReadWav {
    /// The file that is being read.
    pub open spec fn file(&self) -> WavFile {
        self.reader.file()
    }

    /// The fields are those of the file.
    pub open spec fn wf(&self) -> bool {
        &&& self.file().valid()
        &&& self.channels == self.file().channels
        &&& self.sr == self.file().sample_rate
        &&& self.len == self.file().n_samples / (self.file().channels as u32)
        &&& self.dtype == self.file().format
    }

    /// The same file, of which perhaps more has been read.
    pub open spec fn same_header(&self, other: ReadWav) -> bool {
        &&& self.channels == other.channels
        &&& self.sr == other.sr
        &&& self.len == other.len
        &&& self.dtype == other.dtype
    }

    /// Opens the file at `path`, which holds `bytes`.
    pub fn new(path: &str, bytes: Vec<u8>) -> (r: Result<ReadWav, WavUtilsError>)
        ensures
            match r {
                Ok(wav) => {
                    &&& wav.wf()
                    &&& wav_open(bytes@) == Ok::<WavFile, HoundErrorKind>(wav.file())
                    &&& wav.file().remaining.len() == wav.file().n_samples
                    &&& opened(bytes@, wav)
                },
                Err(e) => {
                    &&& e is HoundErrorDetail
                    &&& wav_open(bytes@) == Err::<WavFile, HoundErrorKind>(
                        error_kind(e->HoundErrorDetail_source),
                    )
                    &&& e->HoundErrorDetail_msg@ == "Could not find audio file "@ + path@
                },
            },
    {
        let reader = match open_reader(bytes) {
            Err(e) => {
                return Err(WavUtilsError::not_opened(path, e));
            },
            Ok(r) => r,
        };
        let spec = reader_spec(&reader);
        let len = frame_count(reader_len(&reader), spec.channels);
        Ok(
            ReadWav {
                reader: WavSource { inner: reader },
                channels: spec.channels as usize,
                sr: spec.sample_rate as usize,
                len,
                dtype: spec.sample_format,
            },
        )
    }

    /// Pulls up to `want` samples, as integers and in file order. Stops where
    /// the file ends, and at a sample that cannot be decoded.
    pub fn pull(&mut self, want: usize) -> (got: Pulled<i16>)
        requires
            old(self).wf(),
        ensures
            final(self).wf(),
            final(self).same_header(*old(self)),
            pulls(old(self).file(), final(self).file(), want as nat, got),
    {
        pull_samples(&mut self.reader.inner, want)
    }

    /// All samples that are left, in file order. Every one of them has to
    /// decode as an integer; where that is not known, ask [`ReadWav::pull`].
    pub fn iter(&mut self) -> (values: Vec<i16>)
        requires
            old(self).wf(),
            all_ok(old(self).file().remaining),
        ensures
            final(self).wf(),
            final(self).same_header(*old(self)),
            values@ == ok_values(old(self).file().remaining),
            values@ == file_samples(old(self).file()),
            final(self).file() == old(self).file().advanced(
                old(self).file().remaining.len(),
            ),
    {
        read_wav_raw_i16(&mut self.reader.inner)
    }

    /// All samples that are left, in file order, or why one of them could not
    /// be decoded.
    pub fn try_iter(&mut self) -> (r: Result<Vec<i16>, WavUtilsError>)
        requires
            old(self).wf(),
        ensures
            final(self).wf(),
            final(self).same_header(*old(self)),
            match r {
                Ok(values) => {
                    let rem = old(self).file().remaining;
                    &&& all_ok(rem)
                    &&& values@ == ok_values(rem)
                    &&& values@ == file_samples(old(self).file())
                    &&& final(self).file() == old(self).file().advanced(rem.len())
                },
                Err(e) => {
                    let rem = old(self).file().remaining;
                    &&& ok_run(rem) < rem.len()
                    &&& final(self).file() == old(self).file().advanced(ok_run(rem) + 1)
                    &&& e is HoundError
                    &&& rem[ok_run(rem) as int] == Err::<i16, HoundErrorKind>(
                        error_kind(e->HoundError_0),
                    )
                },
            },
    {
        let ghost rem = self.file().remaining;
        let got = self.pull(usize::MAX);
        proof {
            assert(first(rem, usize::MAX as nat) == rem);
            lemma_ok_prefix(rem);
        }
        match got.failure {
            Some(e) => Err(WavUtilsError::from(e)),
            None => {
                assert(rem.take(rem.len() as int) =~= rem);
                Ok(got.values)
            },
        }
    }

    /// All samples that are left, one vector per channel. Every one of them
    /// has to decode as an integer; where that is not known, use
    /// [`ReadWav::try_samples_vec`].
    pub fn samples_vec(self) -> (r: Result<Vec<Vec<i16>>, WavUtilsError>)
        requires
            self.wf(),
            all_ok(self.file().remaining),
        ensures
            r matches Ok(out) && block(out@) == deinterleaved(
                ok_values(self.file().remaining),
                self.channels as nat,
            ),
            r matches Ok(out) && block(out@) == file_channels(self.file()),
    {
        let mut this = self;
        let samples = this.iter();
        Ok(deinterleave(samples.as_slice(), this.channels))
    }

    /// All samples that are left, one vector per channel, or why one of them
    /// could not be decoded.
    pub fn try_samples_vec(self) -> (r: Result<Vec<Vec<i16>>, WavUtilsError>)
        requires
            self.wf(),
        ensures
            match r {
                Ok(out) => {
                    &&& all_ok(self.file().remaining)
                    &&& block(out@) == deinterleaved(
                        ok_values(self.file().remaining),
                        self.channels as nat,
                    )
                    &&& block(out@) == file_channels(self.file())
                },
                Err(e) => {
                    let rem = self.file().remaining;
                    &&& ok_run(rem) < rem.len()
                    &&& e is HoundError
                    &&& rem[ok_run(rem) as int] == Err::<i16, HoundErrorKind>(
                        error_kind(e->HoundError_0),
                    )
                },
            },
    {
        let mut this = self;
        match this.try_iter() {
            Ok(samples) => Ok(deinterleave(samples.as_slice(), this.channels)),
            Err(e) => Err(e),
        }
    }

    /// All samples of the file, one row per channel. Every one of them has to
    /// decode as an integer; where that is not known, use
    /// [`ReadWav::try_samples_arr2`]. Fails where some were read before.
    pub fn samples_arr2(self) -> (r: Result<SampleArray, WavUtilsError>)
        requires
            self.wf(),
            all_ok(self.file().remaining),
        ensures
            match r {
                Ok(array) => {
                    &&& self.file().remaining.len() == self.file().n_samples
                    &&& array_grid(array).cols == self.len
                    &&& array_grid(array).rows == deinterleaved(
                        ok_values(self.file().remaining),
                        self.channels as nat,
                    )
                    &&& array_grid(array).rows == file_channels(self.file())
                },
                Err(e) => {
                    &&& self.file().remaining.len() < self.file().n_samples
                    &&& e is NdarrayShapeError
                },
            },
    {
        let mut this = self;
        let samples = this.iter();
        proof {
            lemma_whole_file(self.file());
        }
        frames_to_array(samples, this.len, this.channels as u16)
    }

    /// All samples of the file, one row per channel, or why one of them could
    /// not be decoded. Fails where some were read before.
    pub fn try_samples_arr2(self) -> (r: Result<SampleArray, WavUtilsError>)
        requires
            self.wf(),
        ensures
            match r {
                Ok(array) => {
                    &&& all_ok(self.file().remaining)
                    &&& self.file().remaining.len() == self.file().n_samples
                    &&& array_grid(array).cols == self.len
                    &&& array_grid(array).rows == deinterleaved(
                        ok_values(self.file().remaining),
                        self.channels as nat,
                    )
                    &&& array_grid(array).rows == file_channels(self.file())
                },
                Err(WavUtilsError::NdarrayShapeError(_)) => {
                    &&& all_ok(self.file().remaining)
                    &&& self.file().remaining.len() < self.file().n_samples
                },
                Err(e) => {
                    let rem = self.file().remaining;
                    &&& ok_run(rem) < rem.len()
                    &&& e is HoundError
                    &&& rem[ok_run(rem) as int] == Err::<i16, HoundErrorKind>(
                        error_kind(e->HoundError_0),
                    )
                },
            },
    {
        let mut this = self;
        match this.try_iter() {
            Ok(samples) => {
                proof {
                    lemma_whole_file(self.file());
                }
                frames_to_array(samples, this.len, this.channels as u16)
            },
            Err(e) => Err(e),
        }
    }

    /// Reads up to `max_frames` frames of integer samples into `out[ch][..n]`,
    /// one vector per channel.
    ///
    /// Returns the number of frames read. A number below `max_frames` says
    /// that the file has ended; an unfinished last frame is read and
    /// discarded. `out` is grown to `max_frames` per channel if needed; samples
    /// beyond the returned count are left untouched and must not be read.
    ///
    /// A sample that cannot be decoded ends the block with an error. The
    /// samples of a float file are pulled by the caller, and read by
    /// [`read_pulled_frames`].
    pub fn read_frames(&mut self, out: &mut Vec<Vec<i16>>, max_frames: usize) -> (r: Result<
        usize,
        WavUtilsError,
    >)
        requires
            old(self).wf(),
            old(self).dtype is Int,
            old(out)@.len() == old(self).channels,
        ensures
            final(self).wf(),
            final(out)@.len() == old(out)@.len(),
            final(self).same_header(*old(self)),
            final(self).file() == (WavFile {
                remaining: final(self).file().remaining,
                ..old(self).file()
            }),
            reads_frames(
                old(self).file().remaining,
                final(self).file().remaining,
                block(old(out)@),
                block(final(out)@),
                old(self).channels as nat,
                max_frames as nat,
                0i16,
                outcome(r),
            ),
            r matches Err(e) ==> e is HoundError,
    {
        let ghost rem = self.file().remaining;
        let channels = self.channels;
        let want = match max_frames.checked_mul(channels) {
            Some(n) => n,
            None => usize::MAX,
        };
        let pulled = self.pull(want);
        assert(first(rem, max_frames as nat * channels as nat) =~= first(rem, want as nat));
        assert(pulled_from(
            rem,
            self.file().remaining,
            max_frames as nat * channels as nat,
            pulled,
        ));
        read_pulled_frames(pulled, out, max_frames, channels, 0i16)
    }
}

/// A file has as many samples as its frames have in all channels.
proof fn lemma_whole_file(file: WavFile)
    requires
        file.valid(),
    ensures
        (file.n_samples / (file.channels as u32)) * file.channels == file.n_samples,
{
    lemma_place_of(file.n_samples as int, file.channels as int);
}

/// Laying `k` samples over a block looks at no others.
proof fn lemma_overlaid_prefix<T>(
    chans: Seq<Seq<T>>,
    a: Seq<T>,
    b: Seq<T>,
    k: nat,
    channels: nat,
)
    requires
        k <= a.len(),
        k <= b.len(),
        forall|i: int| 0 <= i < k ==> a[i] == b[i],
    ensures
        overlaid(chans, a, k, channels) == overlaid(chans, b, k, channels),
{
    let x = overlaid(chans, a, k, channels);
    let y = overlaid(chans, b, k, channels);
    assert forall|c: int| 0 <= c < chans.len() implies (#[trigger] x[c]) == y[c] by {
        assert forall|t: int| 0 <= t < chans[c].len() implies x[c][t] == y[c][t] by {
            if c < channels {
                lemma_place(t, c, channels as int);
            }
        }
        assert(x[c] =~= y[c]);
    }
    assert(x =~= y);
}

/// Every sample of the wav file with these bytes decodes as an integer.
pub open spec fn decodes(bytes: Seq<u8>) -> bool {
    wav_open(bytes) matches Ok(file) ==> all_ok(file.remaining)
}

/// Reads a whole wav file of integer samples: one vector per channel, and the
/// number of frames per second. Every sample has to decode as an integer;
/// where that is not known, use [`try_read_wav`].
pub fn read_wav(bytes: Vec<u8>) -> (r: Result<(Vec<Vec<i16>>, u32), WavUtilsError>)
    requires
        decodes(bytes@),
    ensures
        match (r, wav_open(bytes@)) {
            (Ok((out, sr)), Ok(file)) => {
                &&& block(out@) == deinterleaved(ok_values(file.remaining), file.channels as nat)
                &&& block(out@) == file_channels(file)
                &&& sr == file.sample_rate
            },
            (Err(e), Err(kind)) => e is HoundError && error_kind(e->HoundError_0) == kind,
            _ => false,
        },
{
    let mut reader = match hound_result(open_reader(bytes)) {
        Ok(reader) => reader,
        Err(e) => {
            return Err(e);
        },
    };
    let spec = reader_spec(&reader);
    let samples = read_wav_raw_i16(&mut reader);
    Ok((deinterleave(samples.as_slice(), spec.channels as usize), spec.sample_rate))
}

/// Reads a whole wav file: one vector per channel, and the number of frames
/// per second; or why it could not be opened, or one of its samples could not
/// be decoded as an integer.
pub fn try_read_wav(bytes: Vec<u8>) -> (r: Result<(Vec<Vec<i16>>, u32), WavUtilsError>)
    ensures
        match r {
            Ok((out, sr)) => {
                &&& wav_open(bytes@) is Ok
                &&& decodes(bytes@)
                &&& block(out@) == deinterleaved(
                    ok_values(wav_open(bytes@)->Ok_0.remaining),
                    wav_open(bytes@)->Ok_0.channels as nat,
                )
                &&& block(out@) == file_channels(wav_open(bytes@)->Ok_0)
                &&& sr == wav_open(bytes@)->Ok_0.sample_rate
            },
            Err(e) => e is HoundError && match wav_open(bytes@) {
                Err(kind) => error_kind(e->HoundError_0) == kind,
                Ok(file) => {
                    let rem = file.remaining;
                    &&& ok_run(rem) < rem.len()
                    &&& rem[ok_run(rem) as int] == Err::<i16, HoundErrorKind>(
                        error_kind(e->HoundError_0),
                    )
                },
            },
        },
{
    let copy = bytes.clone();
    assert(copy@ =~= bytes@);
    let mut reader = match hound_result(open_reader(copy)) {
        Ok(reader) => reader,
        Err(e) => {
            return Err(e);
        },
    };
    let ghost rem = reader_file(reader).remaining;
    let got = pull_samples(&mut reader, usize::MAX);
    proof {
        assert(first(rem, usize::MAX as nat) == rem);
        lemma_ok_prefix(rem);
    }
    match got.failure {
        Some(e) => Err(WavUtilsError::from(e)),
        None => read_wav(bytes),
    }
}

} // verus!
