//! The input history, and the pass-through resampler.

use samplerack::internals::InputHistory;
use samplerack::resampler::check_construction;
use samplerack::Double;
use samplerack::NoopResampler;
use samplerack::ResampleResult;
use samplerack::Resampler;

fn filled() -> InputHistory<i32> {
    let mut history = InputHistory::new(2, 0);
    history.push(&[1, -1, 2, -2, 3, -3]);
    history
}

#[test]
fn history_reads_by_absolute_frame() {
    let history = filled();
    assert_eq!(history.frames(), 3);
    assert_eq!(history.end(), 3);
    assert_eq!(history.at(0, 0), 1);
    assert_eq!(history.at(2, 1), -3);
}

#[test]
fn history_is_silent_outside_the_buffer() {
    let mut history = InputHistory::new(2, 7);
    assert_eq!(history.silence(), 7);
    history.push(&[1, -1]);
    assert_eq!(history.at(-1, 0), 7);
    assert_eq!(history.at(1, 1), 7);
    assert_eq!(history.at(i64::MIN, 0), 7);
    assert_eq!(history.at(i64::MAX, 0), 7);
}

#[test]
fn trimming_keeps_later_frames() {
    let mut history = filled();
    history.trim(1);
    assert_eq!(history.frames(), 2);
    assert_eq!(history.end(), 3);
    assert_eq!(history.at(0, 0), 0);
    assert_eq!(history.at(1, 0), 2);
    assert_eq!(history.at(2, 1), -3);
}

#[test]
fn trimming_past_the_end_drops_everything_and_no_more() {
    let mut history = filled();
    history.trim(100);
    assert_eq!(history.frames(), 0);
    assert_eq!(history.end(), 3);
    history.push(&[4, -4]);
    assert_eq!(history.at(3, 0), 4);
}

#[test]
fn trimming_before_the_start_drops_nothing() {
    let mut history = filled();
    history.trim(2);
    history.trim(-5);
    history.trim(1);
    assert_eq!(history.frames(), 1);
    assert_eq!(history.at(2, 0), 3);
}

#[test]
fn trims_join() {
    let mut twice = filled();
    twice.trim(1);
    twice.trim(2);
    let mut backwards = filled();
    backwards.trim(2);
    backwards.trim(1);
    let mut once = filled();
    once.trim(2);
    for frame in -1..5 {
        assert_eq!(twice.at(frame, 0), once.at(frame, 0));
        assert_eq!(backwards.at(frame, 0), once.at(frame, 0));
    }
    assert_eq!(twice.frames(), once.frames());
    assert_eq!(backwards.frames(), once.frames());
}

#[test]
fn trim_before_a_push_is_trim_after_it() {
    let mut first = filled();
    first.trim(1);
    first.push(&[4, -4]);
    first.trim(2);
    let mut last = filled();
    last.push(&[4, -4]);
    last.trim(2);
    for frame in -1..6 {
        assert_eq!(first.at(frame, 1), last.at(frame, 1));
    }
}

#[test]
fn a_channel_reads_alone() {
    let both = filled();
    let mut alone = InputHistory::new(1, 0);
    alone.push(&[-1, -2, -3]);
    assert_eq!(both.end(), alone.end());
    for frame in -1..5 {
        assert_eq!(both.at(frame, 1), alone.at(frame, 0));
    }
}

#[test]
fn clearing_starts_over() {
    let mut history = filled();
    history.trim(2);
    history.clear();
    assert_eq!(history.frames(), 0);
    assert_eq!(history.end(), 0);
    history.push(&[9, 8]);
    assert_eq!(history.at(0, 1), 8);
}

#[test]
fn history_tells_its_room() {
    let history = filled();
    assert!(history.has_room(0));
    assert!(history.has_room(1_000_000));
    assert!(!history.has_room(usize::MAX));
}

#[test]
fn construction_errors() {
    assert_eq!(
        check_construction(48_000, 44_100, 0),
        Err("channel count must be greater than zero".to_string())
    );
    assert_eq!(
        check_construction(0, 0, 0),
        Err("channel count must be greater than zero".to_string())
    );
    assert_eq!(
        check_construction(0, 44_100, 1),
        Err("sample rates must be greater than zero".to_string())
    );
    assert_eq!(
        check_construction(48_000, 0, 2),
        Err("sample rates must be greater than zero".to_string())
    );
    assert_eq!(check_construction(48_000, 44_100, 2), Ok(()));
}

#[test]
fn noop_moves_what_both_buffers_hold() {
    let mut r = NoopResampler;
    let mut output = [0u8; 5];
    let result = r.process(&[1, 2, 3, 4, 5, 6, 7], &mut output, 2);
    assert_eq!(
        result,
        ResampleResult { input_frames_consumed: 2, output_frames_written: 2 }
    );
    assert_eq!(output, [1, 2, 3, 4, 0]);
    let result = r.process(&[8, 9, 10], &mut output, 2);
    assert_eq!(
        result,
        ResampleResult { input_frames_consumed: 1, output_frames_written: 1 }
    );
    assert_eq!(output, [8, 9, 3, 4, 0]);
}

#[test]
fn noop_passes_everything_there_is_room_for() {
    let mut r = NoopResampler;
    let mut output = [0u8; 6];
    let result = r.process(&[1, 2, 3, 4, 5, 6], &mut output, 3);
    assert_eq!(result.output_frames_written * 3, 6);
    assert_eq!(output, [1, 2, 3, 4, 5, 6]);
}

#[test]
fn noop_ignores_zero_channels_and_ratios() {
    let mut r = NoopResampler;
    let mut output = [0u8; 2];
    assert_eq!(r.process(&[1, 2], &mut output, 0), ResampleResult::default());
    assert_eq!(output, [0, 0]);
    assert_eq!(r.flush(&mut output, 1), 0);
    Resampler::<u8>::set_ratio(&mut r, Double { bits: 2.0f64.to_bits() });
    Resampler::<u8>::reset(&mut r);
    assert_eq!(Resampler::<u8>::ratio(&r), Double::one());
    assert_eq!(Resampler::<u8>::latency(&r), 0);
}

#[test]
fn default_result_is_nothing() {
    assert_eq!(
        ResampleResult::default(),
        ResampleResult { input_frames_consumed: 0, output_frames_written: 0 }
    );
}
