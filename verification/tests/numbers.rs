use words_breaker::format::format_number;
use words_breaker::probe::{batch_bytes, BatchProbe, Progress};

fn as_double(n: usize) -> String {
    if n >= 1_000_000_000 {
        format!("{:.1}G", n as f64 / 1e9)
    } else if n >= 1_000_000 {
        format!("{:.1}M", n as f64 / 1e6)
    } else if n >= 1_000 {
        format!("{:.1}K", n as f64 / 1e3)
    } else {
        n.to_string()
    }
}

#[test]
fn small_numbers_are_written_out() {
    assert_eq!(format_number(0), "0");
    assert_eq!(format_number(7), "7");
    assert_eq!(format_number(999), "999");
}

#[test]
fn large_numbers_get_a_letter() {
    assert_eq!(format_number(1_000), "1.0K");
    assert_eq!(format_number(65_536), "65.5K");
    assert_eq!(format_number(1_234_567), "1.2M");
    assert_eq!(format_number(268_435_456), "268.4M");
    assert_eq!(format_number(5_000_000_000), "5.0G");
}

#[test]
fn halves_go_to_the_even_tenth_or_where_the_double_lies() {
    assert_eq!(format_number(1_250), "1.2K");
    assert_eq!(format_number(1_750), "1.8K");
    assert_eq!(format_number(1_150), "1.1K");
    assert_eq!(format_number(999_950), "1000.0K");
    assert_eq!(format_number(999_999_999), "1000.0M");
}

#[test]
fn every_thousand_is_written_like_the_double() {
    for n in 0..1_100_000usize {
        assert_eq!(format_number(n), as_double(n), "{n}");
    }
}

#[test]
fn numbers_of_all_sizes_are_written_like_the_double() {
    let mut x: u64 = 0x9e3779b97f4a7c15;
    for i in 0..400_000u32 {
        x = x.wrapping_mul(6364136223846793005).wrapping_add(1442695040888963407);
        let n = (x >> (i % 60)) as usize;
        assert_eq!(format_number(n), as_double(n), "{n}");
    }
    for k in 0..64u32 {
        for d in 0..3usize {
            let n = (1usize << k).wrapping_add(d).wrapping_sub(1);
            assert_eq!(format_number(n), as_double(n), "{n}");
        }
    }
    for t in 0..40_000usize {
        for unit in [1_000usize, 1_000_000, 1_000_000_000] {
            let n = unit / 20 * t;
            assert_eq!(format_number(n), as_double(n), "{n}");
        }
    }
    assert_eq!(format_number(usize::MAX), as_double(usize::MAX));
}

#[test]
fn a_probe_doubles_up_to_its_cap() {
    let mut probe = BatchProbe::new(16, 18);
    assert_eq!(probe.next_batch(), Some(65_536));
    assert_eq!(probe.report(true), Progress::Growing);
    assert_eq!(probe.next_batch(), Some(131_072));
    assert_eq!(probe.report(true), Progress::Growing);
    assert_eq!(probe.next_batch(), Some(262_144));
    assert_eq!(probe.report(true), Progress::Capped);
    assert_eq!(probe.next_batch(), None);
    assert_eq!(probe.result(), 262_144);
    assert_eq!(probe.cap(), 262_144);
}

#[test]
fn a_failure_keeps_the_last_success() {
    let mut probe = BatchProbe::new(4, 28);
    assert_eq!(probe.report(true), Progress::Growing);
    assert_eq!(probe.report(true), Progress::Growing);
    assert_eq!(probe.report(false), Progress::Failed);
    assert_eq!(probe.next_batch(), None);
    assert_eq!(probe.result(), 32);
    let mut hopeless = BatchProbe::new(16, 28);
    assert_eq!(hopeless.report(false), Progress::Failed);
    assert_eq!(hopeless.result(), 65_536);
}

#[test]
fn a_batch_never_exceeds_the_cap() {
    let mut probe = BatchProbe::new(16, 10);
    assert_eq!(probe.next_batch(), Some(1_024));
    assert_eq!(probe.report(true), Progress::Capped);
    assert_eq!(probe.result(), 1_024);
    let one = BatchProbe::new(0, 0);
    assert_eq!(one.next_batch(), Some(1));
}

#[test]
fn a_probe_stops_behind_a_large_batch() {
    let mut probe = BatchProbe::new(16, 28);
    let mut tried: Vec<usize> = Vec::new();
    let mut last = Progress::Growing;
    while let Some(batch) = probe.next_batch() {
        tried.push(batch);
        last = probe.report(true);
    }
    assert_eq!(tried.len(), 10);
    assert_eq!(tried[9], 1 << 25);
    assert_eq!(last, Progress::Large);
    assert_eq!(probe.result(), 1 << 25);
    assert!(batch_bytes(1 << 24) < 500 * 1024 * 1024);
    assert!(batch_bytes(1 << 25) > 500 * 1024 * 1024);
    let mut first = BatchProbe::new(27, 28);
    assert_eq!(first.report(true), Progress::Large);
    assert_eq!(first.result(), 1 << 27);
    let mut both = BatchProbe::new(25, 25);
    assert_eq!(both.report(true), Progress::Capped);
    assert_eq!(both.result(), 1 << 25);
}

#[test]
fn exponents_that_are_too_large_have_defaults() {
    let probe = BatchProbe::new(200, 200);
    assert_eq!(probe.next_batch(), Some(65_536));
    assert_eq!(probe.cap(), 268_435_456);
}

#[test]
fn a_batch_takes_28_bytes_a_candidate() {
    assert_eq!(batch_bytes(0), 0);
    assert_eq!(batch_bytes(65_536), 1_835_008);
    assert_eq!(batch_bytes(usize::MAX), usize::MAX - 27);
}
