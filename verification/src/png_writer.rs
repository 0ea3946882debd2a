use crate::error::{job_error, RenderError};
use crate::deflate::lz_tokens;
use crate::png::{encode_rgba8, png_rgba8_bytes, unfiltered_scanlines};
use crate::zlib::zlib_stream;
use crate::png_decode::decode_spec;
use vstd::prelude::*;

verus! {

/// The RGBA bytes of a BGRA frame: blue and red swap in every pixel.
pub open spec fn bgra_to_rgba(bgra: Seq<u8>) -> Seq<u8> {
    Seq::new(
        bgra.len(),
        |i: int|
            if i % 4 == 0 {
                bgra[i + 2]
            } else if i % 4 == 2 {
                bgra[i - 2]
            } else {
                bgra[i]
            },
    )
}

/// Encode a single BGRA frame as a self-contained PNG byte vector.
///
/// The frame must hold exactly `width * height * 4` bytes, and a row
/// (`width * 4` bytes) must fit a `usize`.
pub fn encode_bgra_frame_to_png(width: u32, height: u32, bgra: &[u8]) -> (png: Vec<u8>)
    requires
        bgra@.len() == width * height * 4,
        width > 0,
        width * 4 <= usize::MAX,
    ensures
        png@ == png_rgba8_bytes(width, height, bgra_to_rgba(bgra@)),
        height > 0 && zlib_stream(
            unfiltered_scanlines(bgra_to_rgba(bgra@), (width * 4) as nat),
            lz_tokens(unfiltered_scanlines(bgra_to_rgba(bgra@), (width * 4) as nat)),
        ).len() <= u32::MAX ==> decode_spec(png@) == Some((width, height, bgra_to_rgba(bgra@))),
{
    let n = bgra.len();
    let mut rgba: Vec<u8> = Vec::new();
    let mut i: usize = 0;
    while i < n
        invariant
            n == bgra@.len(),
            n % 4 == 0,
            i % 4 == 0,
            i <= n,
            rgba@.len() == i,
            forall|k: int| 0 <= k < i ==> rgba@[k] == #[trigger] bgra_to_rgba(bgra@)[k],
        decreases n - i,
    {
        rgba.push(bgra[i + 2]);
        rgba.push(bgra[i + 1]);
        rgba.push(bgra[i]);
        rgba.push(bgra[i + 3]);
        proof {
            assert forall|k: int| 0 <= k < i + 4 implies rgba@[k] == #[trigger] bgra_to_rgba(
                bgra@,
            )[k] by {
                if k >= i {
                    assert(k % 4 == k - i);
                }
            }
        }
        i = i + 4;
    }
    assert(rgba@ =~= bgra_to_rgba(bgra@));
    encode_rgba8(width, height, rgba.as_slice())
}

/// Same as [`encode_bgra_frame_to_png`] but reports a zero dimension or a
/// length mismatch as a job error instead of refusing the input.
pub fn encode_bgra_frame_to_png_result(width: u32, height: u32, bgra: &[u8]) -> (res: Result<
    Vec<u8>,
    RenderError,
>)
    ensures
        (width == 0 || height == 0) ==> job_error(res) == Some("png encode: zero dimension"@),
        !(width == 0 || height == 0) && bgra@.len() != width * height * 4 ==> job_error(res)
            == Some("png encode: bgra length mismatch"@),
        res matches Ok(png) ==> png@ == png_rgba8_bytes(width, height, bgra_to_rgba(bgra@)),
        res is Ok <==> (width > 0 && height > 0 && bgra@.len() == width * height * 4),
{
    if width == 0 || height == 0 {
        proof {
            reveal_strlit("png encode: zero dimension");
        }
        return Err(RenderError::Job("png encode: zero dimension".to_owned()));
    }
    let len = bgra.len();
    let w: u128 = width as u128;
    let h: u128 = height as u128;
    assert(w * h <= 0xffff_ffff * 0xffff_ffff) by (nonlinear_arith)
        requires
            w <= 0xffff_ffff,
            h <= 0xffff_ffff,
    ;
    let expected: u128 = w * h * 4;
    if len as u128 != expected {
        return Err(RenderError::Job("png encode: bgra length mismatch".to_owned()));
    }
    assert(width * 4 <= width * height * 4) by (nonlinear_arith)
        requires
            height >= 1,
    ;
    Ok(encode_bgra_frame_to_png(width, height, bgra))
}

} // verus!
