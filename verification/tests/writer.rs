use std::io::Cursor;

use wav_utils::array::SampleArray;
use wav_utils::codec::is_writable;
use wav_utils::error::{hound_result, HoundErrorKind, WavUtilsError};
use wav_utils::reader::{read_wav, ReadWav};
use wav_utils::writer::{write_wav, write_wav_arr2, write_wav_iter, WavWriterStream};

fn hound_bytes(channels: u16, sr: u32, samples: &[i16]) -> Vec<u8> {
    let spec = hound::WavSpec {
        channels,
        sample_rate: sr,
        bits_per_sample: 16,
        sample_format: hound::SampleFormat::Int,
    };
    let mut buf = Cursor::new(Vec::new());
    let mut writer = hound::WavWriter::new(&mut buf, spec).unwrap();
    for &s in samples {
        writer.write_sample(s).unwrap();
    }
    writer.finalize().unwrap();
    buf.into_inner()
}

#[test]
fn samples_are_written_as_hound_writes_them() {
    let mut buf = vec![1, 2, 3];
    write_wav_iter(&mut buf, &[1, -1, 300, -300], 16000, 2).unwrap();
    assert_eq!(buf, hound_bytes(2, 16000, &[1, -1, 300, -300]));
    assert_eq!(buf.len(), 44 + 8);
    assert_eq!(&buf[44..], &[1, 0, 255, 255, 44, 1, 212, 254]);
}

#[test]
fn unfinished_frame_is_an_error() {
    let mut buf = Vec::new();
    let e = write_wav_iter(&mut buf, &[1, 2, 3], 16000, 2).err().unwrap();
    assert!(matches!(e, WavUtilsError::HoundError(hound::Error::UnfinishedSample)));
    assert_eq!(e.hound_kind(), Some(HoundErrorKind::UnfinishedSample));
    assert_eq!(&buf[40..], &[6, 0, 0, 0, 1, 0, 2, 0, 3, 0]);
}

#[test]
fn file_is_read_back_as_it_was_written() {
    let x = vec![vec![1i16, -2, i16::MAX], vec![10, -20, i16::MIN]];
    let mut buf = Vec::new();
    write_wav(&mut buf, &x, 44100).unwrap();
    let (y, sr) = read_wav(buf.clone()).unwrap();
    assert_eq!(y, x);
    assert_eq!(sr, 44100);
    let wav = ReadWav::new("a.wav", buf).unwrap();
    assert_eq!((wav.channels, wav.sr, wav.len), (2, 44100, 3));
}

#[test]
fn many_channels_are_read_back() {
    let x: Vec<Vec<i16>> = (0..7).map(|c| vec![c, c + 10]).collect();
    let mut buf = Vec::new();
    write_wav(&mut buf, &x, 8000).unwrap();
    assert_eq!(read_wav(buf).unwrap(), (x, 8000));
}

#[test]
fn first_channel_gives_the_length() {
    let x = vec![vec![1i16], vec![10, 20, 30]];
    let mut buf = Vec::new();
    write_wav(&mut buf, &x, 8000).unwrap();
    assert_eq!(read_wav(buf).unwrap().0, vec![vec![1], vec![10]]);
}

#[test]
fn no_frames_make_an_empty_file() {
    let x = vec![vec![], vec![]];
    let mut buf = Vec::new();
    write_wav(&mut buf, &x, 8000).unwrap();
    assert_eq!(buf, hound_bytes(2, 8000, &[]));
    assert_eq!(read_wav(buf).unwrap(), (x, 8000));
}

#[test]
fn array_is_written_column_by_column() {
    let x = SampleArray::from_shape_vec(2, 3, vec![1, 2, 3, 10, 20, 30]).unwrap();
    let mut buf = Vec::new();
    write_wav_arr2(&mut buf, &x, 16000).unwrap();
    assert_eq!(buf, hound_bytes(2, 16000, &[1, 10, 2, 20, 3, 30]));
}

#[test]
fn array_shape_has_to_fit() {
    assert!(SampleArray::from_shape_vec(2, 2, vec![1, 2, 3, 4]).is_ok());
    assert!(SampleArray::from_shape_vec(0, 5, vec![]).is_ok());
    match SampleArray::from_shape_vec(2, 2, vec![1, 2, 3]) {
        Err(e) => {
            assert!(matches!(e, WavUtilsError::NdarrayShapeError(_)));
            assert_eq!(e.message(), "Ndarray Shape Error");
        }
        Ok(_) => panic!("three samples in a two by two array"),
    }
}

#[test]
fn transposing_exchanges_rows_and_columns() {
    let x = SampleArray::from_shape_vec(2, 3, vec![1, 2, 3, 4, 5, 6]).unwrap();
    assert_eq!(x.shape(), (2, 3));
    assert_eq!(x.column(1), vec![2, 5]);
    let y = x.transposed();
    assert_eq!(y.shape(), (3, 2));
    assert_eq!(y.column(1), vec![4, 5, 6]);
}

#[test]
fn stream_writes_the_bytes_of_the_whole_array() {
    let x = SampleArray::from_shape_vec(2, 4, vec![1, 2, 3, 4, 10, 20, 30, 40]).unwrap();
    let mut whole = Vec::new();
    write_wav_arr2(&mut whole, &x, 48000).unwrap();

    let mut buf = vec![9; 100];
    let mut stream = WavWriterStream::create(&mut buf, 48000, 2).unwrap();
    assert_eq!(stream.frames_written(), 0);
    stream.write_deinterleaved(&[vec![1, 2, 3], vec![10, 20, 30]], 3).unwrap();
    assert_eq!(stream.frames_written(), 3);
    stream.flush().unwrap();
    stream.write_deinterleaved(&[vec![4, 5], vec![40, 50]], 1).unwrap();
    assert_eq!(stream.frames_written(), 4);
    stream.finalize().unwrap();
    assert_eq!(buf, whole);
}

#[test]
fn interrupted_stream_is_playable_up_to_its_checkpoint() {
    let mut buf = Vec::new();
    let mut stream = WavWriterStream::create(&mut buf, 8000, 1).unwrap();
    stream.write_deinterleaved(&[vec![1, 2]], 2).unwrap();
    stream.flush().unwrap();
    stream.write_deinterleaved(&[vec![3]], 1).unwrap();
    std::mem::forget(stream);
    assert_eq!(read_wav(buf).unwrap(), (vec![vec![1, 2]], 8000));
}

#[test]
fn errors_have_their_messages() {
    let e = WavUtilsError::from(hound::Error::TooWide);
    assert_eq!(e.message(), "Hound Error");
    assert_eq!(e.hound_kind(), Some(HoundErrorKind::TooWide));
    let e = WavUtilsError::not_opened("x.wav", hound::Error::Unsupported);
    assert_eq!(e.message(), "Hound Error Detail");
    assert_eq!(e.hound_kind(), Some(HoundErrorKind::Unsupported));
}

#[test]
fn results_keep_their_values_and_causes() {
    assert_eq!(hound_result(Ok(3)).unwrap(), 3);
    let e = hound_result::<u8>(Err(hound::Error::Unsupported)).err().unwrap();
    assert!(matches!(e, WavUtilsError::HoundError(hound::Error::Unsupported)));
}

#[test]
fn header_limits_what_is_writable() {
    assert!(is_writable(1, 8000));
    assert!(!is_writable(0, 8000));
    assert!(!is_writable(1, 0));
    assert!(is_writable(2, 1_073_741_823));
    assert!(!is_writable(2, 1_073_741_824));
    assert!(!is_writable(u16::MAX, u32::MAX));
}

#[test]
fn files_have_sixteen_bits_per_sample() {
    for channels in 1..4u16 {
        let mut buf = Vec::new();
        write_wav_iter(&mut buf, &[1; 6], 8000, channels).unwrap();
        let spec = hound::WavReader::new(Cursor::new(buf)).unwrap().spec();
        assert_eq!(spec.bits_per_sample, 16);
        assert_eq!(spec.sample_format, hound::SampleFormat::Int);
        assert_eq!(spec.channels, channels);
    }
}
