use glitch_octave::detector::{detect, Sign};
use glitch_octave::engine::Engine;
use glitch_octave::noise::NOISE_SEED;
use glitch_octave::params::{division_count, latency_cap};
use rand_xoshiro::rand_core::{RngCore, SeedableRng};
use rand_xoshiro::Xoshiro256Plus;

#[test]
fn fresh_engine_is_empty() {
    let engine: Engine<f32> = Engine::new(0.0);
    assert_eq!(engine.active(), 0);
    assert_eq!(engine.queued(), 0);
    for index in 0..12 {
        assert_eq!(engine.segment_len(index), 0);
    }
}

#[test]
fn constant_input_without_crossing_gives_silence() {
    let cap = latency_cap(44100);
    let mut engine: Engine<f32> = Engine::new(0.0);
    for frame in 0..512 {
        let out = engine.advance(false, division_count(1), cap, 0.75, 0.75);
        assert_eq!(out, (0.0, 0.0));
        assert_eq!(engine.queued(), 0);
        assert_eq!(engine.active(), 0);
        assert_eq!(engine.segment_len(0), frame + 1);
    }
}

#[test]
fn single_crossing_flushes_the_segment_in_order() {
    let cap = latency_cap(44100);
    let mut engine: Engine<f32> = Engine::new(0.0);
    for frame in 0..100 {
        let out = engine.advance(false, 1, cap, frame as f32, -(frame as f32));
        assert_eq!(out, (0.0, 0.0));
    }
    let first = engine.advance(true, 1, cap, 1000.0, -1000.0);
    assert_eq!(first, (-0.0, 0.0));
    assert_eq!(engine.queued(), 99);
    assert_eq!(engine.active(), 0);
    assert_eq!(engine.segment_len(0), 1);
    for frame in 1..100 {
        let out = engine.advance(false, 1, cap, 0.0, 0.0);
        assert_eq!(out, (-(frame as f32), frame as f32));
    }
    assert_eq!(engine.queued(), 0);
    assert_eq!(engine.advance(false, 1, cap, 0.0, 0.0), (0.0, 0.0));
}

#[test]
fn flush_longer_than_the_cap_keeps_the_newest_samples() {
    let cap = latency_cap(44100);
    assert_eq!(cap, 2205);
    let mut engine: Engine<f32> = Engine::new(0.0);
    for frame in 0..3000 {
        engine.advance(false, 1, cap, frame as f32, frame as f32);
    }
    let first = engine.advance(true, 1, cap, 0.0, 0.0);
    assert_eq!(first, (795.0, 795.0));
    assert_eq!(engine.queued(), 2204);
    for frame in 796..3000 {
        let out = engine.advance(false, 1, cap, 0.0, 0.0);
        assert_eq!(out, (frame as f32, frame as f32));
    }
    assert_eq!(engine.queued(), 0);
}

#[test]
fn queue_never_exceeds_the_cap_after_a_flush() {
    let cap = 50;
    let mut engine: Engine<u32> = Engine::new(0);
    let mut sample = 0u32;
    for round in 0..40 {
        for _ in 0..(round * 7 % 90 + 1) {
            sample += 1;
            engine.advance(false, 3, cap, sample, sample);
            assert!(engine.queued() <= cap);
        }
        sample += 1;
        engine.advance(true, 3, cap, sample, sample);
        assert!(engine.queued() <= cap);
    }
}

#[test]
fn channels_are_crossed() {
    let mut engine: Engine<f32> = Engine::new(0.0);
    engine.advance(false, 1, 100, 1.0, 2.0);
    engine.advance(false, 1, 100, 3.0, 4.0);
    let out = engine.advance(true, 1, 100, 5.0, 6.0);
    assert_eq!(out, (2.0, 1.0));
    let out = engine.advance(false, 1, 100, 7.0, 8.0);
    assert_eq!(out, (4.0, 3.0));
}

#[test]
fn crossings_move_the_active_segment_on() {
    let mut engine: Engine<f32> = Engine::new(0.0);
    engine.advance(false, 3, 100, 1.0, 1.0);
    assert_eq!(engine.active(), 0);
    engine.advance(true, 3, 100, 2.0, 2.0);
    assert_eq!(engine.active(), 1);
    engine.advance(false, 3, 100, 3.0, 3.0);
    assert_eq!(engine.active(), 1);
    engine.advance(true, 3, 100, 4.0, 4.0);
    assert_eq!(engine.active(), 2);
    assert_eq!(engine.segment_len(0), 1);
    assert_eq!(engine.segment_len(1), 2);
    assert_eq!(engine.segment_len(2), 1);
    assert_eq!(engine.queued(), 0);
    engine.advance(true, 3, 100, 5.0, 5.0);
    assert_eq!(engine.active(), 0);
    assert_eq!(engine.segment_len(0), 1);
    assert_eq!(engine.segment_len(1), 0);
    assert_eq!(engine.segment_len(2), 0);
    assert_eq!(engine.queued(), 3);
}

#[test]
fn segments_come_out_interlaced() {
    let mut engine: Engine<f32> = Engine::new(0.0);
    for sample in [1.0, 2.0, 3.0, 4.0] {
        engine.advance(false, 2, 100, sample, sample);
    }
    engine.advance(true, 2, 100, 10.0, 10.0);
    engine.advance(false, 2, 100, 20.0, 20.0);
    let mut out = vec![engine.advance(true, 2, 100, 0.0, 0.0).0];
    for _ in 0..6 {
        out.push(engine.advance(false, 2, 100, 0.0, 0.0).0);
    }
    assert_eq!(out, vec![1.0, 2.0, 10.0, 3.0, 4.0, 20.0, 0.0]);
}

#[test]
fn detection_on_the_first_sample_flushes_nothing() {
    let mut engine: Engine<f32> = Engine::new(0.0);
    let out = engine.advance(true, 1, 100, 1.0, 2.0);
    assert_eq!(out, (0.0, 0.0));
    assert_eq!(engine.active(), 0);
    assert_eq!(engine.queued(), 0);
    assert_eq!(engine.segment_len(0), 1);
}

#[test]
fn division_of_zero_counts_as_one() {
    let mut engine: Engine<f32> = Engine::new(0.0);
    engine.advance(false, 0, 100, 1.0, 2.0);
    let out = engine.advance(true, 0, 100, 3.0, 4.0);
    assert_eq!(out, (2.0, 1.0));
    assert_eq!(engine.active(), 0);
}

#[test]
fn division_above_twelve_counts_as_twelve() {
    let mut engine: Engine<u32> = Engine::new(0);
    for sample in 0..11 {
        engine.advance(true, 1000, 100, sample, sample);
        assert_eq!(engine.active(), sample as usize + 1);
    }
    engine.advance(true, 1000, 100, 11, 11);
    assert_eq!(engine.active(), 0);
    assert_eq!(engine.queued(), 10);
}

#[test]
fn stale_active_index_lasts_until_the_next_crossing() {
    let mut engine: Engine<u32> = Engine::new(0);
    engine.advance(false, 6, 100, 1, 1);
    engine.advance(true, 6, 100, 2, 2);
    engine.advance(true, 6, 100, 3, 3);
    engine.advance(true, 6, 100, 4, 4);
    assert_eq!(engine.active(), 3);
    engine.advance(false, 2, 100, 5, 5);
    assert_eq!(engine.active(), 3);
    assert_eq!(engine.segment_len(3), 2);
    let out = engine.advance(true, 2, 100, 6, 6);
    assert_eq!(out, (1, 1));
    assert_eq!(engine.active(), 0);
    assert_eq!(engine.queued(), 1);
    assert_eq!(engine.segment_len(2), 1);
    assert_eq!(engine.segment_len(3), 2);
}

#[test]
fn silence_is_what_the_engine_was_given() {
    let mut engine: Engine<i16> = Engine::new(-1);
    assert_eq!(engine.advance(false, 1, 10, 5, 6), (-1, -1));
    assert_eq!(engine.advance(true, 1, 10, 7, 8), (6, 5));
    assert_eq!(engine.advance(false, 1, 10, 7, 8), (-1, -1));
}

#[test]
fn draws_do_not_touch_the_engine() {
    let mut engine: Engine<f32> = Engine::new(0.0);
    engine.advance(false, 2, 100, 1.0, 2.0);
    engine.advance(true, 2, 100, 3.0, 4.0);
    for _ in 0..10 {
        engine.next_draw();
    }
    assert_eq!(engine.active(), 1);
    assert_eq!(engine.queued(), 0);
    assert_eq!(engine.segment_len(0), 1);
    assert_eq!(engine.segment_len(1), 1);
}

#[test]
fn draws_repeat_from_engine_to_engine() {
    let mut first: Engine<f32> = Engine::new(0.0);
    let mut second: Engine<f32> = Engine::new(0.0);
    let a: Vec<u64> = (0..64).map(|_| first.next_draw()).collect();
    let b: Vec<u64> = (0..64).map(|_| second.next_draw()).collect();
    assert_eq!(a, b);
}

#[test]
fn draws_are_those_of_the_seeded_generator() {
    assert_eq!(NOISE_SEED, 69_420);
    let mut generator = Xoshiro256Plus::seed_from_u64(69_420);
    let mut engine: Engine<f32> = Engine::new(0.0);
    for _ in 0..256 {
        assert_eq!(engine.next_draw(), generator.next_u64());
    }
}

#[test]
fn draws_vary() {
    let mut engine: Engine<f32> = Engine::new(0.0);
    let draws: Vec<u64> = (0..64).map(|_| engine.next_draw()).collect();
    for i in 0..draws.len() {
        for j in (i + 1)..draws.len() {
            assert_ne!(draws[i], draws[j]);
        }
    }
}

#[test]
fn process_without_crossing_never_flushes() {
    let mut engine: Engine<f32> = Engine::new(0.0);
    for frame in 0..200 {
        let out = engine.process(Sign::Negative, Sign::Positive, u64::MAX / 2, 1, 2205, 1.0, 1.0);
        assert_eq!(out, (0.0, 0.0));
        assert_eq!(engine.segment_len(0), frame + 1);
    }
}

#[test]
fn process_without_chaos_flushes_on_every_crossing() {
    let mut engine: Engine<f32> = Engine::new(0.0);
    engine.process(Sign::Zero, Sign::Zero, 0, 1, 2205, 1.0, 2.0);
    for _ in 0..200 {
        let out = engine.process(Sign::Positive, Sign::Negative, 0, 1, 2205, 1.0, 2.0);
        assert_eq!(out, (2.0, 1.0));
        assert_eq!(engine.active(), 0);
        assert_eq!(engine.segment_len(0), 1);
    }
}

#[test]
fn process_takes_one_draw_a_sample() {
    let mut plain: Engine<f32> = Engine::new(0.0);
    let mut busy: Engine<f32> = Engine::new(0.0);
    let draws: Vec<u64> = (0..20).map(|_| plain.next_draw()).collect();
    for i in 0..10 {
        assert_eq!(busy.next_draw(), draws[2 * i]);
        busy.process(Sign::Positive, Sign::Negative, 0, 1, 100, 0.0, 0.0);
    }
}

#[test]
fn process_follows_the_draw() {
    let threshold = u64::MAX / 2;
    let mut plain: Engine<u32> = Engine::new(0);
    let mut engine: Engine<u32> = Engine::new(0);
    let mut mirror: Engine<u32> = Engine::new(0);
    for sample in 1..=200u32 {
        let bits = plain.next_draw();
        let detected = detect(Sign::Positive, Sign::Negative, bits, threshold);
        let expected = mirror.advance(detected, 4, 30, sample, sample + 1000);
        let out = engine.process(Sign::Positive, Sign::Negative, threshold, 4, 30, sample, sample + 1000);
        assert_eq!(out, expected);
        assert_eq!(engine.active(), mirror.active());
        assert_eq!(engine.queued(), mirror.queued());
    }
}

#[test]
fn suppression_rate_follows_the_threshold() {
    let trials = 200_000u32;
    for percent in [0u64, 10, 25, 50, 90, 100] {
        let threshold = if percent == 100 { u64::MAX } else { u64::MAX / 100 * percent };
        let mut engine: Engine<f32> = Engine::new(0.0);
        let mut suppressed = 0u32;
        for _ in 0..trials {
            let bits = engine.next_draw();
            if !detect(Sign::Positive, Sign::Negative, bits, threshold) {
                suppressed += 1;
            }
        }
        let rate = suppressed as f64 / trials as f64;
        let wanted = percent as f64 / 100.0;
        assert!((rate - wanted).abs() < 0.01);
    }
}
