//! The wav container, as `hound` decodes and encodes it in memory.

use std::io::Cursor;

use hound::{WavReader, WavWriter};
use vstd::prelude::*;

use crate::error::HoundErrorKind;

#[allow(unused_imports)]
use crate::error::error_kind;

verus! {

/// The most samples that one 16-bit file can hold: its length fields have 32
/// bits, and the longest header takes 60 bytes of what the first one counts.
pub const MAX_SAMPLES: u32 = 2_147_483_617;

/// The most channels whose 16-bit frames a header can describe: the field for
/// the bytes of a frame has 16 bits.
pub const MAX_CHANNELS: u16 = 32_767;

/// The reader of `hound`.
#[verifier::external_type_specification]
#[verifier::external_body]
#[verifier::reject_recursive_types(R)]
pub struct ExWavReader<R>(WavReader<R>);

/// The in-memory file of the standard library.
#[verifier::external_type_specification]
#[verifier::external_body]
#[verifier::reject_recursive_types(T)]
pub struct ExCursor<T>(Cursor<T>);

/// How the samples of a file are stored.
#[derive(Clone, Copy, Debug, PartialEq, Eq, Structural)]
pub enum SampleFormat {
    /// IEEE floating point numbers.
    Float,
    /// Integers.
    Int,
}

/// The properties of the audio data in a wav file.
#[derive(Clone, Copy, Debug, PartialEq, Eq, Structural)]
pub struct WavSpec {
    /// The number of channels.
    pub channels: u16,
    /// The number of frames per second.
    pub sample_rate: u32,
    /// The number of bits in a sample.
    pub bits_per_sample: u16,
    /// How a sample is stored.
    pub sample_format: SampleFormat,
}

/// A wav file that is being read, as far as 16-bit decoding goes.
#[verifier::ext_equal]
pub struct WavFile {
    /// The number of channels.
    pub channels: u16,
    /// The number of frames per second.
    pub sample_rate: u32,
    /// The number of samples in the whole file, over all channels.
    pub n_samples: u32,
    /// The number of bits in a sample.
    pub bits: u16,
    /// How the samples are stored.
    pub format: SampleFormat,
    /// What decoding the samples that were not read yet gives, in file order.
    pub remaining: Seq<Result<i16, HoundErrorKind>>,
}

impl WavFile {
    /// What holds of every file that opens, however much of it was read.
    pub open spec fn valid(self) -> bool {
        &&& self.channels > 0
        &&& self.n_samples % (self.channels as u32) == 0
        &&& self.remaining.len() <= self.n_samples
        &&& self.format is Float ==> forall|i: int|
            0 <= i < self.remaining.len() ==> self.remaining[i]
                == Err::<i16, HoundErrorKind>(HoundErrorKind::InvalidSampleFormat)
    }

    /// The same file with the first `n` of its remaining samples read.
    pub open spec fn advanced(self, n: nat) -> WavFile {
        WavFile { remaining: self.remaining.skip(n as int), ..self }
    }
}

/// What `WavReader::new` makes of the bytes of a file.
pub uninterp spec fn wav_open(bytes: Seq<u8>) -> Result<WavFile, HoundErrorKind>;

/// The file that a reader is reading.
pub uninterp spec fn reader_file(reader: WavReader<Cursor<Vec<u8>>>) -> WavFile;

/// Calls `hound::WavReader::new` on a file in memory.
///
/// Whether it opens, and as what, is a function of its bytes. A file that
/// opens has at least one channel and a whole number of frames; none of its
/// samples has been read; decoding a sample of a float file as an integer
/// fails.
#[verifier::external_body]
pub(crate) fn open_reader(bytes: Vec<u8>) -> (r: Result<WavReader<Cursor<Vec<u8>>>, hound::Error>)
    ensures
        match (r, wav_open(bytes@)) {
            (Ok(reader), Ok(file)) => {
                &&& reader_file(reader) == file
                &&& file.valid()
                &&& file.remaining.len() == file.n_samples
            },
            (Err(e), Err(kind)) => error_kind(e) == kind,
            _ => false,
        },
{
    WavReader::new(Cursor::new(bytes))
}

/// Calls `hound::WavReader::spec`, which gives the properties of the file.
#[verifier::external_body]
pub(crate) fn reader_spec(reader: &WavReader<Cursor<Vec<u8>>>) -> (spec: WavSpec)
    ensures
        spec.channels == reader_file(*reader).channels,
        spec.sample_rate == reader_file(*reader).sample_rate,
        spec.bits_per_sample == reader_file(*reader).bits,
        spec.sample_format == reader_file(*reader).format,
{
    let spec = reader.spec();
    WavSpec {
        channels: spec.channels,
        sample_rate: spec.sample_rate,
        bits_per_sample: spec.bits_per_sample,
        sample_format: match spec.sample_format {
            hound::SampleFormat::Float => SampleFormat::Float,
            hound::SampleFormat::Int => SampleFormat::Int,
        },
    }
}

/// Calls `hound::WavReader::len`: the number of samples in the whole file,
/// however many were read.
#[verifier::external_body]
pub(crate) fn reader_len(reader: &WavReader<Cursor<Vec<u8>>>) -> (n: u32)
    ensures
        n == reader_file(*reader).n_samples,
{
    reader.len()
}

/// Calls `next` on the iterator of `hound::WavReader::samples`, for `i16`.
///
/// Every such iterator goes on where the last one stopped. A sample counts as
/// read even where decoding it fails.
#[verifier::external_body]
pub(crate) fn next_sample(reader: &mut WavReader<Cursor<Vec<u8>>>) -> (r: Option<
    Result<i16, hound::Error>,
>)
    ensures
        ({
            let before = reader_file(*old(reader));
            let after = reader_file(*final(reader));
            match r {
                None => before.remaining.len() == 0 && after == before,
                Some(Ok(v)) => {
                    &&& before.remaining.len() > 0
                    &&& before.remaining[0] == Ok::<i16, HoundErrorKind>(v)
                    &&& after == before.advanced(1)
                },
                Some(Err(e)) => {
                    &&& before.remaining.len() > 0
                    &&& before.remaining[0] == Err::<i16, HoundErrorKind>(error_kind(e))
                    &&& after == before.advanced(1)
                },
            }
        }),
{
    reader.samples::<i16>().next()
}

/// A 16-bit file that is being written into a vector.
#[verifier::external_body]
pub struct PcmSink<'a> {
    inner: WavWriter<Cursor<&'a mut Vec<u8>>>,
}

/// The state of a file that is being written.
#[verifier::ext_equal]
pub struct SinkState {
    /// The number of channels.
    pub channels: u16,
    /// The number of frames per second.
    pub sample_rate: u32,
    /// The samples written so far.
    pub written: Seq<i16>,
    /// No flush has failed so far, so that samples go to the end of the file.
    pub intact: bool,
    /// The samples that were in the file when a flush last succeeded.
    pub checkpoint: Option<Seq<i16>>,
    /// The bytes that the vector holds now.
    pub bytes_now: Seq<u8>,
    /// The bytes that the vector will hold when the file lets go of it.
    pub bytes_final: Seq<u8>,
}

/// The state of a file that is being written.
pub uninterp spec fn sink_state(sink: PcmSink) -> SinkState;

/// The bytes that `hound` writes for a 16-bit wav file with these samples.
pub uninterp spec fn wav_bytes(channels: u16, sample_rate: u32, samples: Seq<i16>) -> Seq<u8>;

/// The 16-bit wav file with these samples, none of them read.
pub open spec fn pcm_file(channels: u16, sample_rate: u32, samples: Seq<i16>) -> WavFile {
    WavFile {
        channels,
        sample_rate,
        n_samples: samples.len() as u32,
        bits: 16,
        format: SampleFormat::Int,
        remaining: samples.map_values(|s: i16| Ok::<i16, HoundErrorKind>(s)),
    }
}

/// `bytes` open as the 16-bit wav file with these samples, where a header can
/// describe it.
pub open spec fn opens_as(
    bytes: Seq<u8>,
    channels: u16,
    sample_rate: u32,
    samples: Seq<i16>,
) -> bool {
    channels <= MAX_CHANNELS ==> wav_open(bytes) == Ok::<WavFile, HoundErrorKind>(
        pcm_file(channels, sample_rate, samples),
    )
}

impl SinkState {
    /// The samples make whole frames.
    pub open spec fn whole_frames(self) -> bool {
        self.written.len() % (self.channels as nat) == 0
    }

    /// The number of whole frames.
    pub open spec fn frames(self) -> nat {
        self.written.len() / (self.channels as nat)
    }

    /// Were writing to end here, the bytes in the vector would open as the
    /// file that was last flushed.
    pub open spec fn playable(self) -> bool {
        self.checkpoint matches Some(samples) ==> opens_as(
            self.bytes_now,
            self.channels,
            self.sample_rate,
            samples,
        )
    }

    /// The same file, whatever became of the bytes in the vector.
    pub open spec fn same_file(self, other: SinkState) -> bool {
        &&& self.channels == other.channels
        &&& self.sample_rate == other.sample_rate
        &&& self.bytes_final == other.bytes_final
    }
}

/// What `hound` can write a 16-bit header for: it divides by the frame rate
/// and by the number of channels, and the bytes of a second fit 32 bits.
pub open spec fn writable(channels: u16, sample_rate: u32) -> bool {
    channels > 0 && sample_rate > 0 && sample_rate * 2 * channels <= u32::MAX
}

/// Whether `hound` can write a 16-bit header for this.
pub fn is_writable(channels: u16, sample_rate: u32) -> (r: bool)
    ensures
        r == writable(channels, sample_rate),
{
    if channels == 0 || sample_rate == 0 {
        return false;
    }
    assert(sample_rate * 2 * channels <= 0xffff_ffff * 2 * 0xffff) by (nonlinear_arith)
        requires
            sample_rate <= 0xffff_ffff,
            channels <= 0xffff,
    ;
    sample_rate as u64 * 2 * channels as u64 <= u32::MAX as u64
}

/// Calls `hound::WavWriter::new` on an empty vector, for 16-bit integers.
///
/// It fails only for other sample sizes, or where writing fails, and a vector
/// grows as needed.
#[verifier::external_body]
pub(crate) fn open_sink<'a>(buf: &'a mut Vec<u8>, spec: WavSpec) -> (r: Result<
    PcmSink<'a>,
    hound::Error,
>)
    requires
        old(buf)@.len() == 0,
        writable(spec.channels, spec.sample_rate),
        spec.bits_per_sample == 16,
        spec.sample_format is Int,
    ensures
        match r {
            Ok(sink) => {
                &&& sink_state(sink).channels == spec.channels
                &&& sink_state(sink).sample_rate == spec.sample_rate
                &&& sink_state(sink).written == Seq::<i16>::empty()
                &&& sink_state(sink).intact
                &&& sink_state(sink).checkpoint is None
                &&& sink_state(sink).bytes_final == final(buf)@
            },
            Err(_) => false,
        },
{
    let spec = hound::WavSpec {
        channels: spec.channels,
        sample_rate: spec.sample_rate,
        bits_per_sample: spec.bits_per_sample,
        sample_format: match spec.sample_format {
            SampleFormat::Float => hound::SampleFormat::Float,
            SampleFormat::Int => hound::SampleFormat::Int,
        },
    };
    WavWriter::new(Cursor::new(buf), spec).map(|inner| PcmSink { inner })
}

/// Calls `hound::WavWriter::write_sample`, which writes a sample.
///
/// A 16-bit sample fits the file, and a vector grows as needed, so that it
/// does not fail. Where no flush failed before, it adds to the end of the
/// vector and leaves the header alone, so that what was flushed stays
/// readable.
#[verifier::external_body]
pub(crate) fn put_sample(sink: &mut PcmSink<'_>, sample: i16) -> (r: Result<(), hound::Error>)
    requires
        sink_state(*old(sink)).written.len() < MAX_SAMPLES,
    ensures
        r is Ok,
        sink_state(*final(sink)).same_file(sink_state(*old(sink))),
        sink_state(*final(sink)).written == sink_state(*old(sink)).written.push(sample),
        sink_state(*final(sink)).intact == sink_state(*old(sink)).intact,
        sink_state(*final(sink)).checkpoint == sink_state(*old(sink)).checkpoint,
        sink_state(*old(sink)).intact && sink_state(*old(sink)).playable() ==> sink_state(
            *final(sink),
        ).playable(),
{
    sink.inner.write_sample(sample)
}

/// Calls `hound::WavWriter::len`: the number of samples written so far.
#[verifier::external_body]
pub(crate) fn sink_len(sink: &PcmSink<'_>) -> (n: u32)
    ensures
        n == sink_state(*sink).written.len(),
{
    sink.inner.len()
}

/// Calls `hound::WavWriter::flush`, which brings the header up to date.
///
/// It fails just where the last frame is unfinished; nothing else can fail in
/// a vector. Where no flush failed before, the bytes in the vector are then
/// all samples behind a header with their number, and a whole file where the
/// flush succeeds. After a flush that fails, samples do not go to the end.
#[verifier::external_body]
pub(crate) fn flush_sink(sink: &mut PcmSink<'_>) -> (r: Result<(), hound::Error>)
    requires
        sink_state(*old(sink)).channels > 0,
        sink_state(*old(sink)).written.len() <= MAX_SAMPLES,
    ensures
        r is Ok <==> sink_state(*old(sink)).whole_frames(),
        r matches Err(e) ==> error_kind(e) is UnfinishedSample,
        sink_state(*final(sink)).same_file(sink_state(*old(sink))),
        sink_state(*final(sink)).written == sink_state(*old(sink)).written,
        sink_state(*final(sink)).intact == (sink_state(*old(sink)).intact && r is Ok),
        sink_state(*final(sink)).checkpoint == if r is Ok {
            Some(sink_state(*old(sink)).written)
        } else {
            sink_state(*old(sink)).checkpoint
        },
        sink_state(*old(sink)).intact ==> sink_state(*final(sink)).bytes_now == wav_bytes(
            sink_state(*old(sink)).channels,
            sink_state(*old(sink)).sample_rate,
            sink_state(*old(sink)).written,
        ),
        sink_state(*old(sink)).intact && r is Ok ==> opens_as(
            sink_state(*final(sink)).bytes_now,
            sink_state(*old(sink)).channels,
            sink_state(*old(sink)).sample_rate,
            sink_state(*old(sink)).written,
        ),
{
    sink.inner.flush()
}

/// Calls `hound::WavWriter::finalize`, which brings the header up to date and
/// lets go of the vector.
///
/// It fails just where the last frame is unfinished; nothing else can fail in
/// a vector. Where no flush failed before, the vector is left with all samples
/// behind a header with their number, and with a whole file where this
/// succeeds.
#[verifier::external_body]
pub(crate) fn close_sink(sink: PcmSink<'_>) -> (r: Result<(), hound::Error>)
    requires
        sink_state(sink).channels > 0,
        sink_state(sink).written.len() <= MAX_SAMPLES,
    ensures
        r is Ok <==> sink_state(sink).whole_frames(),
        match r {
            Ok(()) => {
                let file = sink_state(sink);
                file.intact ==> file.bytes_final == wav_bytes(
                    file.channels,
                    file.sample_rate,
                    file.written,
                ) && opens_as(file.bytes_final, file.channels, file.sample_rate, file.written)
            },
            Err(e) => {
                let file = sink_state(sink);
                &&& error_kind(e) is UnfinishedSample
                &&& file.intact ==> file.bytes_final == wav_bytes(
                    file.channels,
                    file.sample_rate,
                    file.written,
                )
            },
        },
{
    sink.inner.finalize()
}

} // verus!
