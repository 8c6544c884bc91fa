use std::io::Cursor;

use wav_utils::codec::SampleFormat;
use wav_utils::error::{HoundErrorKind, WavUtilsError};
use wav_utils::reader::{
    frame_count, frames_to_array, read_frames_into, read_pulled_frames, read_wav, try_read_wav,
    Pulled, ReadWav,
};

/// A wav file made by hound itself.
fn int_file(channels: u16, sr: u32, bits: u16, samples: &[i32]) -> Vec<u8> {
    let spec = hound::WavSpec {
        channels,
        sample_rate: sr,
        bits_per_sample: bits,
        sample_format: hound::SampleFormat::Int,
    };
    let mut buf = Cursor::new(Vec::new());
    let mut writer = hound::WavWriter::new(&mut buf, spec).unwrap();
    for &s in samples {
        writer.write_sample(s).unwrap();
    }
    writer.finalize().unwrap();
    buf.into_inner()
}

fn float_file(channels: u16, sr: u32, samples: &[f32]) -> Vec<u8> {
    let spec = hound::WavSpec {
        channels,
        sample_rate: sr,
        bits_per_sample: 32,
        sample_format: hound::SampleFormat::Float,
    };
    let mut buf = Cursor::new(Vec::new());
    let mut writer = hound::WavWriter::new(&mut buf, spec).unwrap();
    for &s in samples {
        writer.write_sample(s).unwrap();
    }
    writer.finalize().unwrap();
    buf.into_inner()
}

fn kind(e: &WavUtilsError) -> HoundErrorKind {
    e.hound_kind().unwrap()
}

#[test]
fn header_gives_the_fields() {
    let wav = ReadWav::new("a.wav", int_file(2, 44100, 16, &[1, 2, 3, 4, 5, 6])).unwrap();
    assert_eq!(wav.channels, 2);
    assert_eq!(wav.sr, 44100);
    assert_eq!(wav.len, 3);
    assert_eq!(wav.dtype, SampleFormat::Int);
}

#[test]
fn float_header_gives_the_fields() {
    let wav = ReadWav::new("a.wav", float_file(1, 48000, &[0.5, -0.5])).unwrap();
    assert_eq!(wav.channels, 1);
    assert_eq!(wav.sr, 48000);
    assert_eq!(wav.len, 2);
    assert_eq!(wav.dtype, SampleFormat::Float);
}

#[test]
fn unreadable_file_is_named() {
    match ReadWav::new("dir/a.wav", b"not a wav file".to_vec()) {
        Err(WavUtilsError::HoundErrorDetail { source, msg }) => {
            assert!(matches!(source, hound::Error::FormatError(_)));
            assert_eq!(msg, "Could not find audio file dir/a.wav");
        }
        _ => panic!("opened"),
    }
}

#[test]
fn empty_file_fails_to_open() {
    let e = ReadWav::new("a.wav", Vec::new()).err().unwrap();
    assert_eq!(kind(&e), HoundErrorKind::Io);
    let e = read_wav(Vec::new()).err().unwrap();
    assert!(matches!(e, WavUtilsError::HoundError(_)));
    assert_eq!(kind(&e), HoundErrorKind::Io);
}

#[test]
fn compressed_file_is_unsupported() {
    let mut bytes = int_file(1, 8000, 16, &[1, 2]);
    bytes[20] = 2;
    let e = ReadWav::new("a.wav", bytes).err().unwrap();
    assert_eq!(kind(&e), HoundErrorKind::Unsupported);
}

#[test]
fn frames_are_counted_per_channel() {
    assert_eq!(frame_count(12, 3), 4);
    assert_eq!(frame_count(0, 1), 0);
}

#[test]
fn iter_gives_samples_in_file_order() {
    let mut wav = ReadWav::new("a.wav", int_file(2, 16000, 16, &[1, -2, 3, -4])).unwrap();
    assert_eq!(wav.iter(), vec![1, -2, 3, -4]);
    assert_eq!(wav.iter(), Vec::<i16>::new());
    assert_eq!(wav.len, 2);
}

#[test]
fn eight_bit_samples_decode_too() {
    let mut wav = ReadWav::new("a.wav", int_file(1, 16000, 8, &[-128, 0, 127])).unwrap();
    assert_eq!(wav.iter(), vec![-128, 0, 127]);
}

#[test]
fn pulling_goes_on_where_it_stopped() {
    let mut wav = ReadWav::new("a.wav", int_file(1, 16000, 16, &[1, 2, 3])).unwrap();
    let got = wav.pull(2);
    assert_eq!(got.values, vec![1, 2]);
    assert!(got.failure.is_none());
    let got = wav.pull(2);
    assert_eq!(got.values, vec![3]);
    assert!(got.failure.is_none());
}

#[test]
fn wide_samples_fail_to_decode() {
    let bytes = int_file(1, 16000, 24, &[1, 2]);
    let mut wav = ReadWav::new("a.wav", bytes.clone()).unwrap();
    let got = wav.pull(2);
    assert!(got.values.is_empty());
    assert!(matches!(got.failure, Some(hound::Error::TooWide)));
    let wav = ReadWav::new("a.wav", bytes.clone()).unwrap();
    assert_eq!(kind(&wav.try_samples_vec().err().unwrap()), HoundErrorKind::TooWide);
    assert_eq!(kind(&try_read_wav(bytes).err().unwrap()), HoundErrorKind::TooWide);
}

#[test]
fn float_samples_are_no_integers() {
    let bytes = float_file(1, 16000, &[0.5]);
    let mut wav = ReadWav::new("a.wav", bytes.clone()).unwrap();
    assert_eq!(kind(&wav.try_iter().err().unwrap()), HoundErrorKind::InvalidSampleFormat);
    let e = try_read_wav(bytes).err().unwrap();
    assert_eq!(kind(&e), HoundErrorKind::InvalidSampleFormat);
}

#[test]
fn truncated_file_fails_at_its_end() {
    let mut bytes = int_file(1, 16000, 16, &[1, 2, 3]);
    bytes.truncate(bytes.len() - 2);
    let mut wav = ReadWav::new("a.wav", bytes).unwrap();
    let mut out = vec![vec![]];
    let e = wav.read_frames(&mut out, 4).err().unwrap();
    assert!(matches!(e, WavUtilsError::HoundError(_)));
    assert_eq!(kind(&e), HoundErrorKind::Io);
    assert_eq!(out, vec![vec![1, 2, 0, 0]]);
    assert_eq!(wav.read_frames(&mut out, 4).unwrap(), 0);
}

#[test]
fn samples_come_one_vector_per_channel() {
    let bytes = int_file(2, 16000, 16, &[1, 10, 2, 20, 3, 30]);
    let want = vec![vec![1, 2, 3], vec![10, 20, 30]];
    let wav = ReadWav::new("a.wav", bytes.clone()).unwrap();
    assert_eq!(wav.samples_vec().unwrap(), want);
    let wav = ReadWav::new("a.wav", bytes).unwrap();
    assert_eq!(wav.try_samples_vec().unwrap(), want);
}

#[test]
fn samples_come_one_row_per_channel() {
    let bytes = int_file(2, 16000, 16, &[1, 10, 2, 20, 3, 30]);
    let wav = ReadWav::new("a.wav", bytes.clone()).unwrap();
    let array = wav.samples_arr2().unwrap();
    assert_eq!(array.shape(), (2, 3));
    assert_eq!(array.column(0), vec![1, 10]);
    assert_eq!(array.column(2), vec![3, 30]);
    let wav = ReadWav::new("a.wav", bytes).unwrap();
    assert_eq!(wav.try_samples_arr2().unwrap().column(1), vec![2, 20]);
}

#[test]
fn array_of_a_partly_read_file_has_no_shape() {
    let mut wav = ReadWav::new("a.wav", int_file(1, 16000, 16, &[1, 2, 3])).unwrap();
    wav.pull(1);
    let e = wav.samples_arr2().err().unwrap();
    assert!(matches!(e, WavUtilsError::NdarrayShapeError(_)));
    assert_eq!(e.hound_kind(), None);
}

#[test]
fn array_of_a_file_without_samples_is_empty() {
    let wav = ReadWav::new("a.wav", int_file(2, 16000, 16, &[])).unwrap();
    assert_eq!(wav.samples_arr2().unwrap().shape(), (2, 0));
}

#[test]
fn frames_make_an_array_of_their_shape_only() {
    assert_eq!(frames_to_array(vec![1, 2, 3, 4, 5, 6], 2, 3).unwrap().shape(), (3, 2));
    assert!(frames_to_array(vec![1, 2, 3, 4, 5], 2, 3).is_err());
}

#[test]
fn whole_file_is_read() {
    let (x, sr) = read_wav(int_file(2, 22050, 16, &[1, 10, 2, 20])).unwrap();
    assert_eq!(x, vec![vec![1, 2], vec![10, 20]]);
    assert_eq!(sr, 22050);
    let (x, sr) = try_read_wav(int_file(1, 8000, 16, &[7])).unwrap();
    assert_eq!(x, vec![vec![7]]);
    assert_eq!(sr, 8000);
}

#[test]
fn frames_are_read_block_by_block() {
    let mut wav =
        ReadWav::new("a.wav", int_file(2, 16000, 16, &[1, 10, 2, 20, 3, 30])).unwrap();
    let mut out = vec![vec![], vec![]];
    assert_eq!(wav.read_frames(&mut out, 2).unwrap(), 2);
    assert_eq!(out, vec![vec![1, 2], vec![10, 20]]);
    assert_eq!(wav.read_frames(&mut out, 2).unwrap(), 1);
    assert_eq!(out, vec![vec![3, 2], vec![30, 20]]);
    assert_eq!(wav.read_frames(&mut out, 2).unwrap(), 0);
    assert_eq!(out, vec![vec![3, 2], vec![30, 20]]);
}

#[test]
fn asking_for_no_frames_reads_nothing() {
    let mut wav = ReadWav::new("a.wav", int_file(1, 16000, 16, &[1, 2])).unwrap();
    let mut out = vec![vec![]];
    assert_eq!(wav.read_frames(&mut out, 0).unwrap(), 0);
    assert_eq!(out, vec![Vec::<i16>::new()]);
    assert_eq!(wav.iter(), vec![1, 2]);
}

#[test]
fn long_blocks_keep_their_length() {
    let mut wav = ReadWav::new("a.wav", int_file(1, 16000, 16, &[1, 2])).unwrap();
    let mut out = vec![vec![9; 5]];
    assert_eq!(wav.read_frames(&mut out, 3).unwrap(), 2);
    assert_eq!(out, vec![vec![1, 2, 9, 9, 9]]);
}

#[test]
fn unfinished_last_frame_is_discarded() {
    let mut wav =
        ReadWav::new("a.wav", int_file(2, 16000, 16, &[1, 10, 2, 20, 3, 30])).unwrap();
    wav.pull(1);
    let mut out = vec![vec![-1; 4], vec![-1; 4]];
    assert_eq!(wav.read_frames(&mut out, 4).unwrap(), 2);
    assert_eq!(out, vec![vec![10, 20, -1, -1], vec![2, 3, -1, -1]]);
    assert_eq!(wav.pull(1).values, Vec::<i16>::new());
}

#[test]
fn float_frames_are_laid_over_a_block() {
    let pulled = Pulled { values: vec![0.5f32, -0.5, 0.25], failure: None };
    let mut out = vec![vec![9.0f32; 2], vec![9.0; 2]];
    assert_eq!(read_frames_into(pulled, &mut out, 2, 2).unwrap(), 1);
    assert_eq!(out, vec![vec![0.5, 9.0], vec![-0.5, 9.0]]);
}

#[test]
fn failure_before_the_block_is_full_is_returned() {
    let pulled = Pulled { values: vec![1i16, 2, 3], failure: Some(hound::Error::TooWide) };
    let mut out = vec![vec![0; 2], vec![0; 2]];
    let e = read_frames_into(pulled, &mut out, 2, 2).err().unwrap();
    assert_eq!(kind(&e), HoundErrorKind::TooWide);
    assert_eq!(out, vec![vec![1, 3], vec![2, 0]]);
}

#[test]
fn failure_after_the_block_is_full_is_none_of_its() {
    let pulled = Pulled { values: vec![1i16, 2, 3, 4, 5], failure: Some(hound::Error::TooWide) };
    let mut out = vec![vec![0; 2], vec![0; 2]];
    assert_eq!(read_frames_into(pulled, &mut out, 2, 2).unwrap(), 2);
    assert_eq!(out, vec![vec![1, 3], vec![2, 4]]);
}

#[test]
fn blocks_read_to_the_end_make_the_whole_file() {
    let samples: Vec<i32> = (0..14).collect();
    let bytes = int_file(2, 16000, 16, &samples);
    let whole = ReadWav::new("a.wav", bytes.clone()).unwrap().samples_vec().unwrap();
    let mut wav = ReadWav::new("a.wav", bytes).unwrap();
    let mut joined = vec![vec![], vec![]];
    let mut out = vec![vec![], vec![]];
    let mut calls = 0;
    loop {
        calls += 1;
        let n = wav.read_frames(&mut out, 3).unwrap();
        for (all, ch) in joined.iter_mut().zip(&out) {
            all.extend_from_slice(&ch[..n]);
        }
        if n < 3 {
            break;
        }
    }
    assert_eq!(joined, whole);
    assert_eq!(joined[0].len(), wav.len);
    assert_eq!(calls, wav.len / 3 + 1);
}

#[test]
fn block_size_does_not_affect_the_frames() {
    let bytes = int_file(2, 16000, 16, &[1, 10, 2, 20, 3, 30, 4, 40]);
    let mut wav = ReadWav::new("a.wav", bytes.clone()).unwrap();
    let mut x = vec![vec![], vec![]];
    let mut y = vec![vec![], vec![]];
    assert_eq!(wav.read_frames(&mut x, 1).unwrap(), 1);
    assert_eq!(wav.read_frames(&mut y, 2).unwrap(), 2);
    let mut wav = ReadWav::new("a.wav", bytes).unwrap();
    let mut both = vec![vec![], vec![]];
    assert_eq!(wav.read_frames(&mut both, 3).unwrap(), 3);
    assert_eq!(both, vec![vec![1, 2, 3], vec![10, 20, 30]]);
    assert_eq!(x, vec![vec![1], vec![10]]);
    assert_eq!(y, vec![vec![2, 3], vec![20, 30]]);
}

#[test]
fn nothing_is_read_after_the_end() {
    let mut wav = ReadWav::new("a.wav", int_file(1, 16000, 16, &[1, 2])).unwrap();
    let mut out = vec![vec![]];
    assert_eq!(wav.read_frames(&mut out, 3).unwrap(), 2);
    for k in 0..5 {
        assert_eq!(wav.read_frames(&mut out, k).unwrap(), 0);
    }
    assert_eq!(out, vec![vec![1, 2, 0, 0]]);
}

#[test]
fn failing_sample_counts_as_read() {
    let mut bytes = int_file(1, 16000, 16, &[1, 2, 3]);
    bytes.truncate(bytes.len() - 2);
    let mut wav = ReadWav::new("a.wav", bytes).unwrap();
    assert_eq!(kind(&wav.try_iter().err().unwrap()), HoundErrorKind::Io);
    assert_eq!(wav.try_iter().unwrap(), Vec::<i16>::new());
}

#[test]
fn further_channels_of_a_block_are_left_alone() {
    let pulled = Pulled { values: vec![1i16, 2, 3, 4], failure: None };
    let mut out = vec![vec![0; 2], vec![0; 2], vec![9]];
    assert_eq!(read_frames_into(pulled, &mut out, 2, 2).unwrap(), 2);
    assert_eq!(out, vec![vec![1, 3], vec![2, 4], vec![9]]);
    let pulled = Pulled { values: vec![1i16], failure: None };
    assert_eq!(read_frames_into(pulled, &mut out, 5, 0).unwrap(), 5);
    assert_eq!(out, vec![vec![1, 3], vec![2, 4], vec![9]]);
}

/// Reads frames of a float file that hound decodes.
fn read_float_frames(
    reader: &mut hound::WavReader<Cursor<Vec<u8>>>,
    out: &mut Vec<Vec<f32>>,
    max_frames: usize,
) -> usize {
    let channels = reader.spec().channels as usize;
    let values = reader.samples::<f32>().take(max_frames * channels).map(|s| s.unwrap()).collect();
    read_pulled_frames(Pulled { values, failure: None }, out, max_frames, channels, 0.).unwrap()
}

#[test]
fn float_files_are_read_block_by_block() {
    let bytes = float_file(2, 16000, &[0.1, -0.1, 0.2, -0.2, 0.3, -0.3]);
    let mut reader = hound::WavReader::new(Cursor::new(bytes.clone())).unwrap();
    let mut x = vec![vec![], vec![]];
    let mut y = vec![vec![], vec![]];
    assert_eq!(read_float_frames(&mut reader, &mut x, 1), 1);
    assert_eq!(read_float_frames(&mut reader, &mut y, 3), 2);
    assert_eq!(x, vec![vec![0.1], vec![-0.1]]);
    assert_eq!(y, vec![vec![0.2, 0.3, 0.0], vec![-0.2, -0.3, 0.0]]);
    assert_eq!(read_float_frames(&mut reader, &mut y, 4), 0);
    assert_eq!(y, vec![vec![0.2, 0.3, 0.0, 0.0], vec![-0.2, -0.3, 0.0, 0.0]]);

    let mut reader = hound::WavReader::new(Cursor::new(bytes)).unwrap();
    let mut both = vec![vec![], vec![]];
    assert_eq!(read_float_frames(&mut reader, &mut both, 4), 3);
    assert_eq!(both[0][..3], [0.1, 0.2, 0.3]);
    assert_eq!(both[1][..3], [-0.1, -0.2, -0.3]);
}
