use delay_plugin::delay_line::DelayLine;

/// The mixer of the delay effect: output is the input and the delayed sample
/// blended by `mix` and scaled by `gain`; the write-back adds the delayed sample
/// scaled by `feedback` to the input.
fn delay_mixer(mix: f32, feedback: f32, gain: f32) -> impl Fn(f32, f32) -> (f32, f32) {
    move |input: f32, delayed: f32| {
        ((input * (1.0 - mix) + delayed * mix) * gain, input + delayed * feedback)
    }
}

/// A mixer that outputs the delayed sample and writes the input back.
fn tap(input: u32, delayed: u32) -> (u32, u32) {
    (delayed, input)
}

#[test]
fn new_line_is_filled_and_at_slot_zero() {
    let line = DelayLine::new(5, 7u32);
    assert_eq!(line.len(), 5);
    assert_eq!(line.write_pos(), 0);
    assert_eq!(line.delay_samples(), 0);
    assert_eq!(line.delayed(), 7);
}

#[test]
fn empty_line_passes_input_through() {
    let mut line = DelayLine::new(0, 0u32);
    assert_eq!(line.len(), 0);
    let out = line.process_sample(42, &tap);
    assert_eq!(out, 42);
    assert_eq!(line.write_pos(), 0);
}

#[test]
fn delay_is_taken_modulo_length() {
    let mut line = DelayLine::new(8, 0u32);
    line.set_delay_samples(3);
    assert_eq!(line.delay_samples(), 3);
    line.set_delay_samples(11);
    assert_eq!(line.delay_samples(), 3);
    line.set_delay_samples(16);
    assert_eq!(line.delay_samples(), 0);
}

#[test]
fn write_position_advances_and_wraps() {
    let mut line = DelayLine::new(3, 0u32);
    for expected in [1usize, 2, 0, 1] {
        line.process_sample(9, &tap);
        assert_eq!(line.write_pos(), expected);
    }
}

#[test]
fn echo_returns_after_delay() {
    let mut line = DelayLine::new(10, 0u32);
    line.set_delay_samples(4);
    let mut outs = Vec::new();
    for x in 1..=12u32 {
        outs.push(line.process_sample(x, &tap));
    }
    // the sample written at step t comes back at step t + 4
    assert_eq!(outs, vec![0, 0, 0, 0, 1, 2, 3, 4, 5, 6, 7, 8]);
}

#[test]
fn zero_delay_echoes_after_whole_buffer() {
    let mut line = DelayLine::new(4, 0u32);
    let mut outs = Vec::new();
    for x in 1..=9u32 {
        outs.push(line.process_sample(x, &tap));
    }
    assert_eq!(outs, vec![0, 0, 0, 0, 1, 2, 3, 4, 5]);
}

#[test]
fn fresh_line_is_silent_before_echo() {
    let mut line = DelayLine::new(6, 5u32);
    line.set_delay_samples(3);
    assert_eq!(line.process_sample(100, &tap), 5);
    assert_eq!(line.process_sample(101, &tap), 5);
    assert_eq!(line.process_sample(102, &tap), 5);
    assert_eq!(line.process_sample(103, &tap), 100);
}

#[test]
fn impulse_returns_after_ten_milliseconds() {
    // 48 kHz, 5 s of buffer, 10 ms of delay, feedback 0.5, fully wet, 0 dB
    let mut line = DelayLine::new(240000, 0.0f32);
    line.set_delay_samples(480);
    let mixer = delay_mixer(1.0, 0.5, 1.0);
    let first = line.process_sample(1.0, &mixer);
    assert_eq!(first, 0.0);
    let mut out = vec![0.0f32; 1000];
    for s in out.iter_mut() {
        *s = line.process_sample(0.0, &mixer);
    }
    // the impulse, then its first repeat at half level
    assert_eq!(out[479], 1.0);
    assert_eq!(out[959], 0.5);
    assert_eq!(out.iter().filter(|&&s| s != 0.0).count(), 2);
}

#[test]
fn dry_mix_with_gain() {
    let mut line = DelayLine::new(4, 0.0f32);
    line.set_delay_samples(1);
    let mixer = delay_mixer(0.0, 0.0, 2.0);
    assert_eq!(line.process_sample(0.25, &mixer), 0.5);
    assert_eq!(line.process_sample(1.0, &mixer), 2.0);
}

#[test]
fn feedback_is_written_back() {
    let mut line = DelayLine::new(3, 0u32);
    line.set_delay_samples(1);
    let acc = |input: u32, delayed: u32| (delayed, input + delayed);
    let outs: Vec<u32> = (0..6).map(|_| line.process_sample(1, &acc)).collect();
    assert_eq!(outs, vec![0, 1, 2, 3, 4, 5]);
}

#[test]
fn resize_grows_with_fill() {
    let mut line = DelayLine::new(3, 0u32);
    line.process_sample(1, &tap);
    line.process_sample(2, &tap);
    line.resize(6, 9);
    assert_eq!(line.len(), 6);
    assert_eq!(line.write_pos(), 2);
    line.set_delay_samples(2);
    assert_eq!(line.delayed(), 1);
    line.set_delay_samples(4);
    // slot (2 - 4) mod 6 = 4, one of the added samples
    assert_eq!(line.delayed(), 9);
}

#[test]
fn resize_shrinks_and_wraps_write_position() {
    let mut line = DelayLine::new(5, 0u32);
    for x in 1..=4u32 {
        line.process_sample(x, &tap);
    }
    assert_eq!(line.write_pos(), 4);
    line.resize(3, 0);
    assert_eq!(line.len(), 3);
    assert_eq!(line.write_pos(), 1);
    line.set_delay_samples(1);
    assert_eq!(line.delayed(), 1);
}

#[test]
fn resize_from_empty() {
    let mut line = DelayLine::new(0, 0u32);
    line.resize(4, 3);
    assert_eq!(line.len(), 4);
    assert_eq!(line.write_pos(), 0);
    assert_eq!(line.delayed(), 3);
}

#[test]
fn delay_longer_than_shrunk_line_reads_modulo_length() {
    let mut line = DelayLine::new(10, 0u32);
    line.set_delay_samples(7);
    for x in 1..=5u32 {
        line.process_sample(x, &tap);
    }
    line.resize(4, 0);
    // the line is [1, 2, 3, 4], delay 7 is longer than it, write position 5 % 4 = 1
    assert_eq!(line.delay_samples(), 7);
    assert_eq!(line.write_pos(), 1);
    // slot (1 - 7) mod 4 = 2
    assert_eq!(line.delayed(), 3);
    assert_eq!(line.process_sample(20, &tap), 3);
    // slot (2 - 7) mod 4 = 3
    assert_eq!(line.process_sample(21, &tap), 4);
    // slot (3 - 7) mod 4 = 0
    assert_eq!(line.process_sample(22, &tap), 1);
}
