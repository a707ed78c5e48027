use dupe_rs::control::{count_nanos, estimate_remaining, ActiveClock, Checkpoint, JobControl};
use dupe_rs::sound::{encode_wav, Sound, SAMPLE_RATE};
use dupe_rs::taskbar::{Fraction, Taskbar, TaskbarProgress};
use dupe_rs::ui::format::{
    describe_progress, format_binary_size, format_duration_hms, format_eta, format_size, hash_progress_text,
    hex_prefix,
};

#[test]
fn checkpoint_blocks_while_paused_until_resumed() {
    let mut control = JobControl::default();
    assert_eq!(control.checkpoint(), Checkpoint::Proceed);
    control.set_paused(true);
    assert!(control.is_paused());
    assert_eq!(control.checkpoint(), Checkpoint::Wait);
    assert_eq!(control.checkpoint(), Checkpoint::Wait);
    control.set_paused(false);
    assert_eq!(control.checkpoint(), Checkpoint::Proceed);
}

#[test]
fn cancelling_a_paused_job_releases_the_worker() {
    let mut control = JobControl::default();
    control.set_paused(true);
    control.cancel();
    assert!(control.is_cancelled());
    assert_eq!(control.checkpoint(), Checkpoint::Stop);
}

#[test]
fn clock_excludes_paused_time() {
    let ms = 1_000_000;
    let mut clock = ActiveClock::start();
    clock.pause_at(50 * ms);
    let at_pause = clock.elapsed_at(50 * ms);
    assert_eq!(at_pause, 50 * ms);
    // Frozen while paused.
    assert_eq!(clock.elapsed_at(200 * ms), at_pause);
    assert_eq!(clock.paused_total_at(200 * ms), 150 * ms);
    clock.resume_at(200 * ms);
    assert!(clock.elapsed_at(210 * ms) < 150 * ms);
    assert_eq!(clock.elapsed_at(210 * ms), 60 * ms);
    assert!(clock.paused_total_at(210 * ms) >= 150 * ms);
}

#[test]
fn running_and_paused_time_add_up() {
    let mut clock = ActiveClock::start();
    for (paused, now) in [(true, 50), (true, 60), (false, 90), (false, 95), (true, 120)] {
        if paused {
            clock.pause_at(now);
        } else {
            clock.resume_at(now);
        }
        assert_eq!(clock.elapsed_at(now) + clock.paused_total_at(now), now);
    }
    assert_eq!((clock.elapsed_at(200), clock.paused_total_at(200)), (80, 120));
}

#[test]
fn the_clock_of_the_machine_runs_on() {
    let clock = ActiveClock::start();
    let first = clock.elapsed();
    let mut spins: u64 = 0;
    while clock.elapsed() <= first {
        spins += 1;
        assert!(spins < 1_000_000_000);
    }
    assert_eq!(clock.paused_total(), 0);
    let mut paused = ActiveClock::start_paused(true);
    let frozen = paused.elapsed();
    assert_eq!(paused.elapsed(), frozen);
    paused.resume();
    assert!(paused.elapsed() >= frozen);
    paused.pause();
    assert_eq!(paused.elapsed(), paused.elapsed());
}

#[test]
fn a_clock_counts_no_further_than_it_can() {
    assert_eq!(count_nanos(0), 0);
    assert_eq!(count_nanos(1_500_000_000), 1_500_000_000);
    assert_eq!(count_nanos(u64::MAX as u128), u64::MAX);
    assert_eq!(count_nanos(u64::MAX as u128 + 1), u64::MAX);
}

#[test]
fn the_remaining_time_follows_from_the_pace() {
    assert_eq!(estimate_remaining(25, 100, 10_000_000_000), Some(30_000_000_000));
    assert_eq!(estimate_remaining(0, 100, 10_000_000_000), None);
    assert_eq!(estimate_remaining(100, 100, 10_000_000_000), None);
}

#[test]
fn quantizes_and_clamps_fractions() {
    let normal = |done: u64, total: u64| TaskbarProgress::Normal(Fraction { done, total });
    assert_eq!(normal(12345, 100_000).quantized(), normal(123, 1000));
    assert_eq!(normal(17, 10).quantized(), normal(1000, 1000));
    assert_eq!(TaskbarProgress::Indeterminate.quantized(), TaskbarProgress::Indeterminate);
    assert_eq!(normal(0, 0).quantized(), normal(0, 1000));
    assert_eq!(normal(1, 2000).quantized(), normal(1, 1000), "half a thousandth is rounded up");
    let shown = normal(12345, 100_000).quantized();
    assert_eq!(shown.quantized(), shown, "rounding again changes nothing");
}

#[test]
fn the_taskbar_is_touched_only_for_a_visible_change() {
    let mut taskbar = Taskbar::default();
    let part = |done: u64| TaskbarProgress::Paused(Fraction { done, total: 1_000_000 });
    assert!(taskbar.set(part(500_000)).is_some());
    assert_eq!(taskbar.set(part(500_001)), None);
    assert!(taskbar.set(part(600_000)).is_some());
    assert_eq!(taskbar.set(TaskbarProgress::Hidden), Some(TaskbarProgress::Hidden));
    assert_eq!(taskbar.set(TaskbarProgress::Hidden), None);
}

/// Sine tones with a quick attack and a slow decay.
fn synthesize(notes: &[(u32, u32)]) -> Vec<i16> {
    let rate = SAMPLE_RATE as f32;
    let mut samples = Vec::new();
    for &(tenths, millis) in notes {
        let (freq, secs) = (tenths as f32 / 10.0, millis as f32 / 1000.0);
        for i in 0..(secs * rate) as usize {
            let t = i as f32 / rate;
            let value = (t * freq * std::f32::consts::TAU).sin() * (-t * 5.0 / secs).exp();
            samples.push((value * 9000.0) as i16);
        }
    }
    samples
}

fn wav(sound: Sound) -> Vec<u8> {
    encode_wav(&synthesize(&sound.notes()))
}

#[test]
fn builds_a_well_formed_wav_for_each_sound() {
    for sound in [Sound::ScanFinished, Sound::DeleteFinished] {
        let wav = wav(sound);
        assert_eq!(&wav[0..4], b"RIFF");
        assert_eq!(&wav[8..12], b"WAVE");
        let riff_len = u32::from_le_bytes(wav[4..8].try_into().unwrap()) as usize;
        assert_eq!(riff_len + 8, wav.len());
        let data_len = u32::from_le_bytes(wav[40..44].try_into().unwrap()) as usize;
        assert_eq!(data_len + 44, wav.len());
        assert!(data_len > 0);
    }
}

#[test]
fn the_two_cues_sound_different() {
    assert_ne!(wav(Sound::ScanFinished), wav(Sound::DeleteFinished));
}

#[test]
fn samples_are_written_lowest_byte_first() {
    let wav = encode_wav(&[0x0102, -2]);
    assert_eq!(wav[44..], [0x02, 0x01, 0xFE, 0xFF]);
    assert_eq!(&wav[36..40], b"data");
    assert_eq!(u32::from_le_bytes(wav[24..28].try_into().unwrap()), 44_100);
}

#[test]
fn formats_a_long_duration_as_hh_mm_ss() {
    assert_eq!(format_duration_hms(700_000), "00:11:40");
}

#[test]
fn formats_an_hour_plus_duration() {
    assert_eq!(format_duration_hms(3_661_000), "01:01:01");
}

#[test]
fn formats_a_sub_second_duration() {
    assert_eq!(format_duration_hms(400), "00:00:00");
}

#[test]
fn sizes_are_written_in_decimal_units() {
    assert_eq!(format_size(0), "0 B");
    assert_eq!(format_size(1500), "1.50 kB");
    assert_eq!(format_size(2_000_000), "2 MB");
    assert_eq!(format_binary_size(4096), "4 KiB");
}

#[test]
fn a_hash_is_shown_by_its_first_bytes() {
    let mut hash = [0x11u8; 32];
    hash[0] = 0xC0;
    assert_eq!(hex_prefix(&hash), "c011111111111111");
}

#[test]
fn remaining_times_are_rounded_for_reading() {
    let texts: Vec<String> = [5u128, 65, 3_700]
        .iter()
        .map(|secs| format_eta(secs * 1_000_000_000))
        .collect();
    assert_eq!(texts, ["5s", "1m 5s", "1h 1m"]);
    assert_eq!(format_eta(5_999_999_999), texts[0]);
}

#[test]
fn progress_is_told_with_what_remains() {
    let text = hash_progress_text(250, 1000, 10_000_000_000);
    assert_eq!(text, describe_progress(250, 1000, 10_000_000_000, "250 B", "1 kB"));
    assert_eq!(text, "Hashed 250 B / 1 kB \u{2014} ETA 30s");
    assert!(hash_progress_text(0, 1000, 5).ends_with("estimating..."));
    assert!(hash_progress_text(1000, 1000, 5).ends_with("finishing up..."));
}
