use studio::log::{enabled, parse_level, DEBUG, ERROR, INFO, TRACE, WARN};
use studio::png::encode_rgba8;
use studio::snapshot::{compare, compare_bytes, SnapshotMismatch};

#[test]
fn log_levels_rightmost_word_wins() {
    assert_eq!(parse_level("info"), Some(INFO));
    assert_eq!(parse_level("WARNING"), Some(WARN));
    assert_eq!(parse_level("render=debug,trace"), Some(TRACE));
    assert_eq!(parse_level("error, foo=bogus"), Some(ERROR));
    assert_eq!(parse_level(" off "), Some(0));
    assert_eq!(parse_level("a=b=debug"), Some(DEBUG));
    assert_eq!(parse_level("nonsense"), None);
    assert_eq!(parse_level(""), None);
    assert!(enabled(ERROR, INFO));
    assert!(!enabled(DEBUG, INFO));
}

#[test]
fn byte_compare_reports_first_difference() {
    assert!(compare_bytes(b"abc", b"abc").is_ok());
    match compare_bytes(b"abd", b"abc") {
        Err(SnapshotMismatch::PixelMismatch { byte_offset, baseline, current }) => {
            assert_eq!((byte_offset, baseline, current), (2, b'c', b'd'));
        }
        other => panic!("{other:?}"),
    }
    match compare_bytes(b"ab", b"abc") {
        Err(SnapshotMismatch::LengthMismatch { baseline, current }) => {
            assert_eq!((baseline, current), (3, 2));
        }
        other => panic!("{other:?}"),
    }
}

#[test]
fn png_compare_decodes_pixels() {
    let a = encode_rgba8(1, 1, &[30, 20, 10, 255]);
    let b = encode_rgba8(1, 1, &[30, 20, 10, 255]);
    assert!(compare(&a, "a.png", &b, "b.png", "PNG").is_ok());
    let c = encode_rgba8(1, 1, &[30, 20, 11, 255]);
    let e = compare(&c, "c.png", &b, "b.png", "png").unwrap_err();
    assert_eq!(e.to_string(), "pixel mismatch at byte 2: baseline 0x0a vs current 0x0b");
    match compare(b"junk", "c.png", &b, "b.png", "png") {
        Err(SnapshotMismatch::Io { path, .. }) => assert_eq!(path, "c.png"),
        other => panic!("{other:?}"),
    }
    assert!(compare(b"junk", "c.bgra", b"junk", "b.bgra", "bgra").is_ok());
    assert_eq!(
        SnapshotMismatch::MissingBaseline("x".into()).to_string(),
        "baseline missing at x (run with --update-baselines to seed)"
    );
}
