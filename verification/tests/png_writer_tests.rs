use studio::error::RenderError;
use studio::png_decode::decode_rgba8;
use studio::png_writer::{encode_bgra_frame_to_png, encode_bgra_frame_to_png_result};

#[test]
fn encodes_single_pixel_deterministically() {
    let frame = [10u8, 20, 30, 255]; // BGRA → RGBA(30,20,10,255)
    let a = encode_bgra_frame_to_png(1, 1, &frame);
    let b = encode_bgra_frame_to_png(1, 1, &frame);
    assert_eq!(a, b);
    // PNG signature check.
    assert_eq!(&a[..8], &[0x89, b'P', b'N', b'G', 0x0D, 0x0A, 0x1A, 0x0A]);
}

#[test]
fn rejects_bad_length_via_result() {
    let r = encode_bgra_frame_to_png_result(2, 2, &[0u8; 3]);
    assert!(r.is_err());
}

#[test]
fn bgra_frame_swaps_red_and_blue() {
    let frame = [10u8, 20, 30, 255, 1, 2, 3, 4];
    let png = encode_bgra_frame_to_png(2, 1, &frame);
    let (w, h, rgba) = decode_rgba8(&png).expect("decode");
    assert_eq!((w, h), (2, 1));
    assert_eq!(rgba, vec![30, 20, 10, 255, 3, 2, 1, 4]);
}

#[test]
fn result_variant_reports_each_error() {
    match encode_bgra_frame_to_png_result(0, 2, &[]) {
        Err(RenderError::Job(m)) => assert_eq!(m, "png encode: zero dimension"),
        other => panic!("{other:?}"),
    }
    match encode_bgra_frame_to_png_result(1, 1, &[0u8; 5]) {
        Err(RenderError::Job(m)) => assert_eq!(m, "png encode: bgra length mismatch"),
        other => panic!("{other:?}"),
    }
    let ok = encode_bgra_frame_to_png_result(1, 1, &[1, 2, 3, 4]).expect("ok");
    assert_eq!(ok, encode_bgra_frame_to_png(1, 1, &[1, 2, 3, 4]));
}

#[test]
fn render_error_text() {
    assert_eq!(RenderError::Job("x".into()).to_string(), "invalid job: x");
    assert_eq!(RenderError::Duration("bad".into()).to_string(), "invalid duration: bad");
    assert_eq!(RenderError::FfmpegMissing.to_string(), "ffmpeg not found on PATH");
    assert_eq!(
        RenderError::Io { path: "/a".into(), source: "denied".into() }.to_string(),
        "io error on /a: denied"
    );
}

#[test]
fn zero_height_frame_encodes() {
    let png = studio::png_writer::encode_bgra_frame_to_png(3, 0, &[]);
    assert_eq!(&png[..8], &[0x89, b'P', b'N', b'G', 0x0D, 0x0A, 0x1A, 0x0A]);
}
