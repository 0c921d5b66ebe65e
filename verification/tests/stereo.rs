use delay_plugin::delay_line::DelayLine;

/// The mixer of the delay effect, as the application builds it.
fn delay_mixer(mix: f32, feedback: f32, gain_db: f32) -> impl Fn(f32, f32) -> (f32, f32) {
    let gain = 10.0_f32.powf(gain_db / 20.0);
    move |input: f32, delayed: f32| {
        ((input * (1.0 - mix) + delayed * mix) * gain, input + delayed * feedback)
    }
}

/// Outputs the delayed sample and writes the input back.
fn tap(input: i32, delayed: i32) -> (i32, i32) {
    (delayed, input)
}

#[test]
fn delay_buffer_basic() {
    // 48 kHz, 10 ms of delay, feedback 0.5, fully wet, 0 dB, one impulse
    let sample_rate = 48000.0_f32;
    let len = (sample_rate * 5.0) as usize;
    let mut line = DelayLine::new(len, (0.0f32, 0.0f32));
    line.set_delay_samples(((10.0_f32 / 1000.0) * sample_rate) as usize);
    let mixer = delay_mixer(1.0, 0.5, 0.0);
    line.process_mono(1.0, &mixer);
    // 10 ms is 480 samples: look at enough samples for the delay to pass
    let mut out = vec![0.0_f32; 500];
    for s in out.iter_mut() {
        *s = line.process_mono(0.0, &mixer);
    }
    // ensure some non-zero delayed samples appear
    assert!(out.iter().any(|&s| s != 0.0));
}

#[test]
fn each_channel_is_delayed_by_frames() {
    let mut line = DelayLine::new(8, (0i32, 0i32));
    line.set_delay_samples(2);
    // frames (1, -1), (2, -2), ..., (6, -6)
    let mut buf: Vec<i32> = (1..=6).flat_map(|k| [k, -k]).collect();
    line.process_interleaved(&mut buf, &tap);
    assert_eq!(buf, vec![0, 0, 0, 0, 1, -1, 2, -2, 3, -3, 4, -4]);
}

#[test]
fn odd_delay_keeps_channels_apart() {
    let mut line = DelayLine::new(4, (0.0f32, 0.0f32));
    line.set_delay_samples(1);
    let mixer = delay_mixer(1.0, 0.0, 0.0);
    let mut buf = [1.0f32, 2.0, 3.0, 4.0];
    line.process_interleaved(&mut buf, &mixer);
    // left of frame 1 is left of frame 0, right of frame 1 is right of frame 0
    assert_eq!(buf, [0.0, 0.0, 1.0, 2.0]);
}

#[test]
fn lone_last_sample_is_processed_as_mono() {
    let mut line = DelayLine::new(4, (0i32, 0i32));
    line.set_delay_samples(1);
    let mut buf = [1, 2, 3];
    line.process_interleaved(&mut buf, &tap);
    assert_eq!(buf, [0, 0, 1]);
    // the lone sample went in on both channels
    assert_eq!(line.delayed(), (3, 3));
}

#[test]
fn mono_sample_goes_to_both_channels() {
    let mut line = DelayLine::new(3, (0i32, 0i32));
    line.set_delay_samples(1);
    assert_eq!(line.process_mono(5, &tap), 0);
    assert_eq!(line.delayed(), (5, 5));
    assert_eq!(line.process_mono(6, &tap), 5);
}

#[test]
fn frame_channels_are_mixed_apart() {
    let mut line = DelayLine::new(2, (10i32, 20i32));
    let acc = |input: i32, delayed: i32| (delayed, input + delayed);
    assert_eq!(line.process_frame(1, 2, &acc), (10, 20));
    assert_eq!(line.write_pos(), 1);
    assert_eq!(line.process_frame(3, 4, &acc), (10, 20));
    // zero delay: slot 0 comes back after a whole buffer, holding (1 + 10, 2 + 20)
    assert_eq!(line.process_frame(0, 0, &acc), (11, 22));
}

#[test]
fn empty_line_passes_frames_through() {
    let mut line = DelayLine::new(0, (0i32, 0i32));
    assert_eq!(line.process_frame(4, 5, &tap), (4, 5));
    assert_eq!(line.process_mono(6, &tap), 6);
    let mut buf = [1, 2, 3];
    line.process_interleaved(&mut buf, &tap);
    assert_eq!(buf, [1, 2, 3]);
    assert_eq!(line.write_pos(), 0);
}

#[test]
fn processing_concatenation_equals_processing_in_turn() {
    let mixer = delay_mixer(0.5, 0.25, -6.0);
    let a: Vec<f32> = (0..10).map(|k| (k as f32) * 0.1 - 0.3).collect();
    let b: Vec<f32> = (0..7).map(|k| 0.5 - (k as f32) * 0.05).collect();
    let mut whole = DelayLine::new(5, (0.0f32, 0.0f32));
    let mut parts = DelayLine::new(5, (0.0f32, 0.0f32));
    whole.set_delay_samples(3);
    parts.set_delay_samples(3);
    let mut ab: Vec<f32> = a.iter().chain(b.iter()).copied().collect();
    whole.process_interleaved(&mut ab, &mixer);
    let mut a2 = a.clone();
    let mut b2 = b.clone();
    parts.process_interleaved(&mut a2, &mixer);
    parts.process_interleaved(&mut b2, &mixer);
    let joined: Vec<f32> = a2.iter().chain(b2.iter()).copied().collect();
    assert_eq!(ab, joined);
    assert_eq!(whole.write_pos(), parts.write_pos());
    assert_eq!(whole.delayed(), parts.delayed());
}
