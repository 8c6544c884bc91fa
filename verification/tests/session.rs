use wav_utils::layout::interleave;
use wav_utils::lengths::{length_after, model_delay, LengthBudget};
use wav_utils::session::{Action, Session, Stage, READ_FRAMES};
use wav_utils::verbosity::{log_level, runtime_log_level, LogLevel};

/// Runs a session over mono audio with a model that negates its hop and
/// resamplers that change nothing. Returns what was written, the inputs of the
/// model and the number of checkpoints.
fn run(
    audio: &[i32],
    hop: usize,
    sr: usize,
    skip: usize,
    n_out: usize,
) -> (Vec<i32>, Vec<Vec<i32>>, usize) {
    let mut pos = 0;
    let mut written = Vec::new();
    let mut hops = Vec::new();
    let mut checkpoints = 0;
    let (mut session, mut action) = Session::new(1, hop, sr, skip, n_out, 0i32);
    let mut read = Vec::new();
    loop {
        action = match action {
            Action::Read { max_frames } => {
                assert_eq!(session.stage(), Stage::Read);
                let n = max_frames.min(audio.len() - pos);
                read = audio[pos..pos + n].to_vec();
                pos += n;
                session.frames_read(n)
            }
            Action::ResampleIn { frames, flush } => {
                assert_eq!(frames, read.len());
                assert_eq!(flush, frames < READ_FRAMES);
                let block = vec![read.clone()];
                assert!(session.takes_input(&block));
                session.model_input(block)
            }
            Action::Model { frame } => {
                assert_eq!(frame.len(), hop);
                hops.push(frame.clone());
                session.model_output(frame.iter().map(|x| -x).collect())
            }
            Action::ResampleOut { block, .. } => session.resampled(block),
            Action::Write { block, frames } | Action::Pad { block, frames, .. } => {
                written.extend_from_slice(&block[0][..frames]);
                session.write_done()
            }
            Action::Checkpoint => {
                checkpoints += 1;
                session.checkpoint_done()
            }
            Action::Finalize => {
                assert_eq!(session.stage(), Stage::Finished);
                assert_eq!(session.frames_done(), audio.len());
                return (written, hops, checkpoints);
            }
        };
    }
}

#[test]
fn last_hop_is_filled_up_and_cut_off() {
    let (written, hops, _) = run(&[1, 2, 3, 4, 5], 2, 100, 0, 5);
    assert_eq!(written, vec![-1, -2, -3, -4, -5]);
    assert_eq!(hops, vec![vec![1, 2], vec![3, 4], vec![5, 0]]);
}

#[test]
fn delay_is_skipped_at_the_start() {
    let (written, _, _) = run(&[1, 2, 3, 4, 5], 2, 100, 3, 2);
    assert_eq!(written, vec![-4, -5]);
}

#[test]
fn output_is_cut_off_at_the_planned_length() {
    let (written, _, _) = run(&[1, 2, 3, 4, 5], 2, 100, 0, 3);
    assert_eq!(written, vec![-1, -2, -3]);
}

#[test]
fn output_is_filled_up_to_the_planned_length() {
    let (written, _, _) = run(&[1, 2], 2, 100, 0, READ_FRAMES + 5);
    assert_eq!(written.len(), READ_FRAMES + 5);
    assert_eq!(&written[..2], &[-1, -2]);
    assert!(written[2..].iter().all(|x| *x == 0));
}

#[test]
fn skip_longer_than_the_audio_leaves_nothing() {
    let (written, hops, _) = run(&[1, 2, 3], 2, 100, 10, 0);
    assert!(written.is_empty());
    assert_eq!(hops.len(), 2);
}

#[test]
fn file_without_frames_is_empty() {
    let (written, hops, _) = run(&[], 4, 100, 0, 0);
    assert!(written.is_empty());
    assert!(hops.is_empty());
}

#[test]
fn audio_is_carried_over_from_block_to_block() {
    let audio: Vec<i32> = (1..=(2 * READ_FRAMES as i32 + 7)).collect();
    let (written, hops, checkpoints) = run(&audio, 1000, 100, 0, audio.len());
    assert_eq!(written, audio.iter().map(|x| -x).collect::<Vec<_>>());
    assert_eq!(hops.len(), 9);
    assert_eq!(hops[4][0], 4001);
    assert_eq!(hops[8][198], 8199);
    assert_eq!(hops[8][199], 0);
    assert_eq!(checkpoints, 2);
}

#[test]
fn checkpoints_come_every_thirty_seconds_of_audio() {
    let audio = vec![1; 4 * READ_FRAMES];
    let (_, _, checkpoints) = run(&audio, READ_FRAMES, 2 * READ_FRAMES / 30 + 1, 0, audio.len());
    assert_eq!(checkpoints, 1);
    let (_, _, checkpoints) = run(&audio, READ_FRAMES, READ_FRAMES, 0, audio.len());
    assert_eq!(checkpoints, 0);
}

#[test]
fn channels_stay_apart() {
    let (mut session, _) = Session::new(2, 2, 100, 1, 2, 0i16);
    session.frames_read(3);
    assert!(!session.takes_input(&[vec![1]]));
    assert!(!session.takes_input(&[vec![1, 2], vec![3]]));
    match session.model_input(vec![vec![1, 2, 3], vec![10, 20, 30]]) {
        Action::Model { frame } => assert_eq!(frame, vec![1, 2, 10, 20]),
        _ => panic!("the model was due"),
    }
    match session.model_output(vec![5, 6, 50, 60]) {
        Action::Model { frame } => assert_eq!(frame, vec![3, 0, 30, 0]),
        _ => panic!("the model was due"),
    }
    match session.model_output(vec![7, 8, 70, 80]) {
        Action::ResampleOut { block, flush } => {
            assert!(flush);
            assert_eq!(block, vec![vec![6, 7], vec![60, 70]]);
        }
        _ => panic!("the way out was due"),
    }
    match session.resampled(vec![vec![1], vec![2]]) {
        Action::Write { block, frames } => {
            assert_eq!(frames, 1);
            assert_eq!(block, vec![vec![1], vec![2]]);
        }
        _ => panic!("the writer was due"),
    }
    match session.write_done() {
        Action::Pad { block, frames, missing } => {
            assert_eq!((frames, missing), (1, 1));
            assert_eq!(block, vec![vec![0; READ_FRAMES]; 2]);
        }
        _ => panic!("a frame was missing"),
    }
    assert!(matches!(session.write_done(), Action::Finalize));
}

#[test]
fn delay_counts_transform_and_lookahead() {
    assert_eq!(model_delay(960, 480, 2), 1440);
    assert_eq!(model_delay(480, 480, 0), 0);
}

#[test]
fn resampler_gives_the_length_where_rates_differ() {
    let out_len = |n: usize, from: usize, to: usize| n * to / from + 1;
    assert_eq!(length_after(10, 16000, 48000, out_len), 31);
    assert_eq!(length_after(10, 48000, 48000, out_len), 10);
}

#[test]
fn budget_leaves_out_the_delay() {
    let b = LengthBudget::new(100, 30, true);
    assert_eq!((b.n_model, b.skip, b.n_enh), (100, 30, 70));
    assert!(!b.is_too_short());
    let b = LengthBudget::new(100, 30, false);
    assert_eq!((b.skip, b.n_enh), (0, 100));
    let b = LengthBudget::new(30, 30, true);
    assert_eq!(b.n_enh, 0);
    assert!(b.is_too_short());
    assert!(!LengthBudget::new(0, 30, false).is_too_short());
}

#[test]
fn flags_raise_the_log_levels() {
    let program: Vec<LogLevel> = (0..5).map(log_level).collect();
    assert_eq!(
        program,
        vec![LogLevel::Warn, LogLevel::Info, LogLevel::Debug, LogLevel::Trace, LogLevel::Trace]
    );
    let runtime: Vec<LogLevel> = (2..8).map(runtime_log_level).collect();
    assert_eq!(
        runtime,
        vec![
            LogLevel::Error,
            LogLevel::Error,
            LogLevel::Info,
            LogLevel::Debug,
            LogLevel::Trace,
            LogLevel::Trace
        ]
    );
}

#[test]
fn file_holds_what_was_emitted() {
    let emitted = vec![vec![1, 2], vec![10, 20]];
    let block = vec![vec![3, 4, 5], vec![30, 40, 50]];
    let mut written = interleave(&emitted, 2);
    written.extend(interleave(&block, 2));
    assert_eq!(written, interleave(&[vec![1, 2, 3, 4], vec![10, 20, 30, 40]], 4));
}
