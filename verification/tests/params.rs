use glitch_octave::params::{division_count, latency_cap, SEGMENTS};

#[test]
fn twelve_segments() {
    assert_eq!(SEGMENTS, 12);
}

#[test]
fn division_count_keeps_counts_in_range() {
    for raw in 1..=12usize {
        assert_eq!(division_count(raw), raw);
    }
}

#[test]
fn division_count_of_zero_is_one() {
    assert_eq!(division_count(0), 1);
}

#[test]
fn division_count_stops_at_twelve() {
    assert_eq!(division_count(13), 12);
    assert_eq!(division_count(usize::MAX), 12);
}

#[test]
fn latency_cap_at_common_rates() {
    assert_eq!(latency_cap(44100), 2205);
    assert_eq!(latency_cap(48000), 2400);
    assert_eq!(latency_cap(96000), 4800);
}

#[test]
fn latency_cap_rounds_up() {
    assert_eq!(latency_cap(0), 0);
    assert_eq!(latency_cap(1), 1);
    assert_eq!(latency_cap(19), 1);
    assert_eq!(latency_cap(20), 1);
    assert_eq!(latency_cap(21), 2);
    assert_eq!(latency_cap(44101), 2206);
    assert_eq!(latency_cap(22050), 1103);
}

#[test]
fn latency_cap_of_the_largest_rate() {
    assert_eq!(latency_cap(usize::MAX), usize::MAX / 20 + 1);
}

#[test]
fn latency_cap_of_a_fractional_rate() {
    let rate = 44100.5f64;
    assert_eq!(latency_cap(rate.ceil() as usize), (rate / 20.0).ceil() as usize);
    assert_eq!(latency_cap(rate.ceil() as usize), 2206);
    let rate = 11024.99f64;
    assert_eq!(latency_cap(rate.ceil() as usize), (rate / 20.0).ceil() as usize);
}
