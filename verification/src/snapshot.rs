use crate::error::concat_str;
use crate::models::{ascii_lower, text_is, to_ascii_lowercase};
use crate::png_decode::{decode_rgba8, decode_spec};
use crate::text::{decimal_chars, push_char, u64_to_string};
use vstd::prelude::*;
use vstd::string::StringExecFns;

verus! {

/// Snapshot mismatch reason (carried back through [`compare`] for
/// diagnostics). `Io` carries the path and the reader's or decoder's
/// message.
#[derive(Debug)]
#[allow(inconsistent_fields)]
pub enum SnapshotMismatch {
    MissingBaseline(String),
    LengthMismatch { baseline: usize, current: usize },
    PixelMismatch { byte_offset: usize, baseline: u8, current: u8 },
    Io { path: String, source: String },
}

/// How two byte buffers compare: equal, different lengths, or the first
/// differing offset.
pub open spec fn bytes_outcome(current: Seq<u8>, baseline: Seq<u8>, res: Result<(), SnapshotMismatch>) -> bool {
    if current.len() != baseline.len() {
        res matches Err(SnapshotMismatch::LengthMismatch { baseline: b, current: c }) && b
            == baseline.len() && c == current.len()
    } else if current == baseline {
        res is Ok
    } else {
        res matches Err(SnapshotMismatch::PixelMismatch { byte_offset: i, baseline: b, current: c })
            && i < current.len() && current[i as int] != baseline[i as int] && b == baseline[i as int]
            && c == current[i as int] && forall|j: int| 0 <= j < i ==> current[j] == baseline[j]
    }
}

/// The RGBA pixels a PNG decodes to (empty when it does not decode).
pub open spec fn decoded_pixels(png: Seq<u8>) -> Seq<u8> {
    match decode_spec(png) {
        Some(t) => t.2,
        None => Seq::empty(),
    }
}

/// Compare two buffers byte for byte.
pub fn compare_bytes(current: &[u8], baseline: &[u8]) -> (res: Result<(), SnapshotMismatch>)
    ensures
        bytes_outcome(current@, baseline@, res),
{
    if current.len() != baseline.len() {
        return Err(
            SnapshotMismatch::LengthMismatch { baseline: baseline.len(), current: current.len() },
        );
    }
    let mut i: usize = 0;
    while i < current.len()
        invariant
            current@.len() == baseline@.len(),
            i <= current@.len(),
            forall|j: int| 0 <= j < i ==> current@[j] == baseline@[j],
        decreases current@.len() - i,
    {
        if current[i] != baseline[i] {
            return Err(
                SnapshotMismatch::PixelMismatch {
                    byte_offset: i,
                    baseline: baseline[i],
                    current: current[i],
                },
            );
        }
        i = i + 1;
    }
    assert(current@ =~= baseline@);
    Ok(())
}

/// The RGBA pixels a PNG decodes to, or the decoder's complaint tagged
/// with the file's path.
fn decode_png_rgba(bytes: &[u8], path: &str) -> (res: Result<Vec<u8>, SnapshotMismatch>)
    ensures
        res matches Ok(px) ==> decode_spec(bytes@) matches Some(t) && t.2 == px@,
        res is Err <==> decode_spec(bytes@) is None,
        res is Err ==> (res matches Err(SnapshotMismatch::Io { path: p, .. }) && p@ == path@),
{
    match decode_rgba8(bytes) {
        Ok((_w, _h, rgba)) => Ok(rgba),
        Err(e) => Err(SnapshotMismatch::Io { path: path.to_owned(), source: e }),
    }
}

/// Compare the current output with its baseline, both already read. PNG
/// baselines (by extension, case-insensitive) are compared as decoded RGBA
/// pixels; anything else byte for byte.
#[verifier::rlimit(100)]
pub fn compare(
    current: &[u8],
    current_path: &str,
    baseline: &[u8],
    baseline_path: &str,
    baseline_ext: &str,
) -> (res: Result<(), SnapshotMismatch>)
    ensures
        ascii_lower(baseline_ext@) != "png"@ ==> bytes_outcome(current@, baseline@, res),
        ascii_lower(baseline_ext@) == "png"@ ==> {
            &&& decode_spec(current@) is None ==> (res matches Err(SnapshotMismatch::Io { path, .. })
                && path@ == current_path@)
            &&& decode_spec(current@) is Some && decode_spec(baseline@) is None ==> (res matches Err(
                SnapshotMismatch::Io { path, .. },
            ) && path@ == baseline_path@)
            &&& decode_spec(current@) is Some && decode_spec(baseline@) is Some ==> bytes_outcome(
                decoded_pixels(current@),
                decoded_pixels(baseline@),
                res,
            )
        },
{
    let ext = to_ascii_lowercase(baseline_ext);
    if text_is(&ext, "png") {
        let cur = match decode_png_rgba(current, current_path) {
            Ok(px) => px,
            Err(e) => {
                return Err(e);
            },
        };
        let base = match decode_png_rgba(baseline, baseline_path) {
            Ok(px) => px,
            Err(e) => {
                return Err(e);
            },
        };
        return compare_bytes(cur.as_slice(), base.as_slice());
    }
    compare_bytes(current, baseline)
}

/// Lower-case hexadecimal digit of `d < 16`.
pub open spec fn hex_lower(d: int) -> char {
    if d < 10 {
        (48 + d) as char
    } else {
        (87 + d) as char
    }
}

/// `0x` and two lower-case hex digits.
pub open spec fn byte_hex(b: u8) -> Seq<char> {
    seq!['0', 'x', hex_lower(b as int / 16), hex_lower(b as int % 16)]
}

fn push_byte_hex(out: &mut String, b: u8)
    ensures
        final(out)@ == old(out)@ + byte_hex(b),
{
    push_char(out, '0');
    push_char(out, 'x');
    let hi = b / 16;
    let lo = b % 16;
    push_char(out, if hi < 10 { (48 + hi) as char } else { (87 + hi) as char });
    push_char(out, if lo < 10 { (48 + lo) as char } else { (87 + lo) as char });
    assert(out@ =~= old(out)@ + byte_hex(b));
}

/// The message shown for a mismatch.
pub open spec fn mismatch_text(m: SnapshotMismatch) -> Seq<char> {
    match m {
        SnapshotMismatch::MissingBaseline(p) => "baseline missing at "@ + p@
            + " (run with --update-baselines to seed)"@,
        SnapshotMismatch::LengthMismatch { baseline, current } => "baseline length "@
            + decimal_chars(baseline as nat) + " != current length "@ + decimal_chars(
            current as nat,
        ),
        SnapshotMismatch::PixelMismatch { byte_offset, baseline, current } => "pixel mismatch at byte "@
            + decimal_chars(byte_offset as nat) + ": baseline "@ + byte_hex(baseline)
            + " vs current "@ + byte_hex(current),
        SnapshotMismatch::Io { path, source } => "snapshot io error on "@ + path@ + ": "@ + source@,
    }
}

impl SnapshotMismatch {
    pub fn to_string(&self) -> (s: String)
        ensures
            s@ == mismatch_text(*self),
    {
        match self {
            SnapshotMismatch::MissingBaseline(p) => {
                let head = concat_str("baseline missing at ", p.as_str());
                concat_str(head.as_str(), " (run with --update-baselines to seed)")
            },
            SnapshotMismatch::LengthMismatch { baseline, current } => {
                let b = u64_to_string(*baseline as u64);
                let c = u64_to_string(*current as u64);
                let mut s = concat_str("baseline length ", b.as_str());
                s.append(" != current length ");
                s.append(c.as_str());
                s
            },
            SnapshotMismatch::PixelMismatch { byte_offset, baseline, current } => {
                let o = u64_to_string(*byte_offset as u64);
                let mut s = concat_str("pixel mismatch at byte ", o.as_str());
                s.append(": baseline ");
                push_byte_hex(&mut s, *baseline);
                s.append(" vs current ");
                push_byte_hex(&mut s, *current);
                s
            },
            SnapshotMismatch::Io { path, source } => {
                let head = concat_str("snapshot io error on ", path.as_str());
                let mid = concat_str(head.as_str(), ": ");
                concat_str(mid.as_str(), source.as_str())
            },
        }
    }
}

} // verus!
