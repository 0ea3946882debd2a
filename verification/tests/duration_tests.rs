use studio::error::RenderError;
use studio::models::{parse_duration_secs, plan_segments, Container, OutputFormat, RenderJob};

/// xorshift64* — deterministic, seed-stamped generator.
struct Rng(u64);
impl Rng {
    fn next(&mut self) -> u64 {
        let mut x = self.0;
        x ^= x >> 12;
        x ^= x << 25;
        x ^= x >> 27;
        self.0 = x;
        x.wrapping_mul(0x2545_F491_4F6C_DD1D)
    }
    /// Uniform in `lo..=hi` (hi >= lo).
    fn range(&mut self, lo: u64, hi: u64) -> u64 {
        lo + self.next() % (hi - lo + 1)
    }
}

#[test]
fn seconds_suffix_roundtrip() {
    let mut rng = Rng(0xD0A7_10C5_0001);
    for _ in 0..64 {
        let n = rng.range(1, 10_000);
        let d = parse_duration_secs(&format!("{n}s")).expect("parse");
        assert_eq!(d, n);
    }
}

#[test]
fn bare_number_is_seconds() {
    let mut rng = Rng(0xD0A7_10C5_0002);
    for _ in 0..64 {
        let n = rng.range(1, 10_000);
        let d = parse_duration_secs(&n.to_string()).expect("parse");
        assert_eq!(d, n);
    }
}

#[test]
fn zero_always_errors() {
    for unit in ["", "s", "m", "h", "d"] {
        let raw = if unit.is_empty() {
            "0".to_string()
        } else {
            format!("0{unit}")
        };
        assert!(parse_duration_secs(&raw).is_err());
    }
}

#[test]
fn units_multiply() {
    assert_eq!(parse_duration_secs("5m").unwrap(), 300);
    assert_eq!(parse_duration_secs("2h").unwrap(), 7200);
    assert_eq!(parse_duration_secs("1d").unwrap(), 86_400);
    for bad in ["", "s", "1x", "1.5s", "-1", "1 s", "99999999999999999999"] {
        assert!(parse_duration_secs(bad).is_err(), "{bad}");
    }
    assert!(parse_duration_secs("18446744073709551615d").is_err());
}

fn job(total: u64, seg: u64) -> RenderJob {
    RenderJob {
        effect: "beams".into(),
        plugin_path: None,
        seed: 1,
        fps: 30,
        duration: total.max(1),
        width: 64,
        height: 64,
        output: "/tmp/master.mkv".into(),
        cols: None,
        rows: None,
        dry_run: true,
        segment: Some(seg.max(1)),
        audio: None,
        resume: false,
        crf: 35,
        preset: None,
        encoder: None,
        prefer_hw: true,
        gpu_upscale: true,
        format: OutputFormat::Mp4,
        container: Container::Mkv,
        baseline_dir: None,
        snapshot_last_only: false,
        update_baselines: false,
        cpu_raster: false,
    }
}

#[test]
fn plan_len_matches_segment_count() {
    let mut rng = Rng(0x5E66_E07A_0003);
    for _ in 0..48 {
        let total = rng.range(1, 50_000);
        let seg = rng.range(1, 10_000);
        let j = job(total, seg);
        let plans = plan_segments(&j).expect("plan");
        assert_eq!(plans.len() as u64, j.segment_count());
        let sum: u64 = plans.iter().map(|p| p.duration).sum();
        // saturating segments may overshoot last part only by covering total
        assert!(sum >= j.duration || plans.len() == 1);
    }
}

#[test]
fn plan_covers_exactly() {
    let plans = plan_segments(&job(125, 60)).unwrap();
    let d: Vec<u64> = plans.iter().map(|p| p.duration).collect();
    assert_eq!(d, vec![60, 60, 5]);
    assert_eq!(plans.iter().map(|p| p.index).collect::<Vec<_>>(), vec![0, 1, 2]);
    assert_eq!(job(120, 60).segment_count(), 2);
    assert_eq!(job(10, 60).segment_count(), 1);
    let mut j = job(10, 1);
    j.segment = None;
    assert_eq!(j.segment_count(), 1);
    j.fps = 25;
    assert_eq!(j.frame_count(), 250);
}

#[test]
fn duration_error_messages() {
    let msg = |s: &str| match parse_duration_secs(s) {
        Err(RenderError::Duration(m)) => m,
        other => panic!("{s}: {other:?}"),
    };
    assert_eq!(msg(""), "empty duration");
    assert_eq!(msg("s"), "missing number in duration: s");
    assert_eq!(msg("1x"), "invalid duration: 1x");
    assert_eq!(msg("0m"), "duration must be > 0: 0m");
    assert_eq!(msg("99999999999999999999"), "duration too large: 99999999999999999999");
    assert_eq!(msg("18446744073709551615m"), "duration too large: 18446744073709551615m");
}
