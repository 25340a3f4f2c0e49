use hibiki::infrastructure::audio::{AudioBuffer, AudioBufferSource};
use std::sync::Arc;

fn buffer(len: i16, sample_rate: u32, channels: u16) -> AudioBuffer {
    AudioBuffer { samples: Arc::new((0..len).collect()), sample_rate, channels }
}

fn drain(source: &mut AudioBufferSource) -> Vec<i16> {
    let mut out = Vec::new();
    while let Some(s) = source.next_sample() {
        out.push(s);
    }
    out
}

#[test]
fn whole_buffer_plays_every_sample_in_order() {
    let buf = buffer(6, 8000, 2);
    let mut source = buf.to_source();
    assert_eq!(source.remaining_samples(), Some(6));
    assert_eq!(drain(&mut source), vec![0, 1, 2, 3, 4, 5]);
    assert_eq!(source.next_sample(), None);
    assert_eq!(source.next_sample(), None);
    assert_eq!(source.remaining_samples(), Some(0));
}

#[test]
fn source_reports_format() {
    let buf = buffer(4, 44100, 2);
    let source = buf.to_source();
    assert_eq!(source.channels(), 2);
    assert_eq!(source.sample_rate(), 44100);
    assert_eq!(source.current_span_len(), None);
}

#[test]
fn slice_plays_requested_window() {
    // 1000 Hz, 2 channels: 1 ms is one frame, i.e. two samples.
    let buf = buffer(20, 1000, 2);
    let mut source = buf.to_source_slice(2, 3);
    assert_eq!(source.remaining_samples(), Some(6));
    assert_eq!(drain(&mut source), vec![4, 5, 6, 7, 8, 9]);
}

#[test]
fn slice_is_cut_at_buffer_end() {
    let buf = buffer(20, 1000, 2);
    let mut source = buf.to_source_slice(8, 100);
    assert_eq!(drain(&mut source), vec![16, 17, 18, 19]);
}

#[test]
fn slice_starting_past_the_end_plays_nothing() {
    let buf = buffer(20, 1000, 2);
    let mut source = buf.to_source_slice(50, 10);
    assert_eq!(source.remaining_samples(), None);
    assert_eq!(source.next_sample(), None);
}

#[test]
fn slice_offsets_round_down_to_whole_frames() {
    // 44100 Hz: 1 ms is 44.1 frames, rounded down to 44 frames = 88 samples.
    let buf = AudioBuffer { samples: Arc::new(vec![7; 1000]), sample_rate: 44100, channels: 2 };
    let source = buf.to_source_slice(1, 2);
    // 2 ms = 88.2 frames -> 88 frames = 176 samples.
    assert_eq!(source.remaining_samples(), Some(176));
}

#[test]
fn empty_slice_plays_nothing() {
    let buf = buffer(10, 1000, 1);
    let mut source = buf.to_source_slice(3, 0);
    assert_eq!(source.remaining_samples(), Some(0));
    assert_eq!(source.next_sample(), None);
}
