use crate::bitio::{bytes_to_bits, BitReader};
use crate::checksum::{adler32, adler32_spec, crc32, crc32_spec};
use crate::deflate::{expand, lz_tokens, tokens_valid, Token};
use crate::inflate::{inflate, inflate_err, inflate_spec};
use crate::png_decode::decode_spec;
use crate::png_laws::law_png_roundtrip;
use crate::text::err_msg;
use crate::zlib::{be32, push_be32, push_slice, zlib_encode, zlib_stream};
use vstd::prelude::*;


verus! {

/// The PNG file signature.
pub open spec fn png_signature() -> Seq<u8> {
    seq![0x89u8, 0x50, 0x4E, 0x47, 0x0D, 0x0A, 0x1A, 0x0A]
}

/// The four-byte type codes of the chunks the encoder writes.
pub open spec fn ihdr_tag() -> Seq<u8> {
    seq![0x49u8, 0x48, 0x44, 0x52]
}

pub open spec fn idat_tag() -> Seq<u8> {
    seq![0x49u8, 0x44, 0x41, 0x54]
}

pub open spec fn iend_tag() -> Seq<u8> {
    seq![0x49u8, 0x45, 0x4E, 0x44]
}

/// A PNG chunk: length, type, data, CRC-32 over type and data.
pub open spec fn png_chunk(kind: Seq<u8>, data: Seq<u8>) -> Seq<u8> {
    be32(data.len() as u32) + kind + data + be32(crc32_spec(kind + data))
}

/// The IHDR payload for an 8-bit RGBA, non-interlaced image.
pub open spec fn ihdr_rgba8(width: u32, height: u32) -> Seq<u8> {
    be32(width) + be32(height) + seq![8u8, 6, 0, 0, 0]
}

/// Scanlines of `stride` bytes, each preceded by filter type 0 (None).
pub open spec fn unfiltered_scanlines(rgba: Seq<u8>, stride: nat) -> Seq<u8>
    decreases rgba.len(),
{
    if stride == 0 || rgba.len() < stride {
        Seq::empty()
    } else {
        seq![0u8] + rgba.take(stride as int) + unfiltered_scanlines(rgba.skip(stride as int), stride)
    }
}

/// The PNG the encoder writes for `rgba`, given the tokens its compressor
/// chose for the scanline data.
pub open spec fn png_rgba8_file(width: u32, height: u32, rgba: Seq<u8>, ts: Seq<Token>) -> Seq<
    u8,
> {
    let raw = unfiltered_scanlines(rgba, (width * 4) as nat);
    png_signature() + png_chunk(ihdr_tag(), ihdr_rgba8(width, height)) + png_chunk(
        idat_tag(),
        zlib_stream(raw, ts),
    ) + png_chunk(iend_tag(), Seq::empty())
}

/// The PNG the encoder writes for `rgba`: its scanlines compressed with
/// the tokens the compressor chooses for them.
pub open spec fn png_rgba8_bytes(width: u32, height: u32, rgba: Seq<u8>) -> Seq<u8> {
    png_rgba8_file(width, height, rgba, lz_tokens(unfiltered_scanlines(rgba, (width * 4) as nat)))
}

fn push_sig(out: &mut Vec<u8>)
    ensures
        final(out)@ == old(out)@ + png_signature(),
{
    out.push(0x89);
    out.push(0x50);
    out.push(0x4E);
    out.push(0x47);
    out.push(0x0D);
    out.push(0x0A);
    out.push(0x1A);
    out.push(0x0A);
    assert(out@ =~= old(out)@ + png_signature());
}

/// Append a chunk of type `kind` holding `data`.
pub fn chunk(out: &mut Vec<u8>, kind: &[u8], data: &[u8])
    requires
        kind@.len() == 4,
    ensures
        final(out)@ == old(out)@ + png_chunk(kind@, data@),
{
    push_be32(out, #[verifier::truncate] (data.len() as u32));
    push_slice(out, kind);
    push_slice(out, data);
    let mut crc_data: Vec<u8> = Vec::new();
    push_slice(&mut crc_data, kind);
    push_slice(&mut crc_data, data);
    push_be32(out, crc32(crc_data.as_slice()));
    assert(out@ =~= old(out)@ + png_chunk(kind@, data@));
}

fn scanlines(rgba: &[u8], stride: usize) -> (raw: Vec<u8>)
    requires
        stride > 0,
    ensures
        raw@ == unfiltered_scanlines(rgba@, stride as nat),
{
    let mut raw: Vec<u8> = Vec::new();
    let n = rgba.len();
    let mut off: usize = 0;
    let mut rows: usize = 0;
    assert(rgba@.skip(0) =~= rgba@);
    while n - off >= stride
        invariant
            stride > 0,
            off <= n,
            n == rgba@.len(),
            off == rows * stride,
            rows <= off,
            raw@.len() == off + rows,
            raw@ + unfiltered_scanlines(rgba@.skip(off as int), stride as nat) == unfiltered_scanlines(
                rgba@,
                stride as nat,
            ),
        decreases n - off,
    {
        let ghost rest = rgba@.skip(off as int);
        raw.push(0);
        push_slice(&mut raw, &rgba[off..off + stride]);
        assert(rest.take(stride as int) =~= rgba@.subrange(off as int, off + stride));
        assert(rest.skip(stride as int) =~= rgba@.skip(off + stride));
        off = off + stride;
        rows = rows + 1;
        assert(off == rows * stride) by (nonlinear_arith)
            requires
                off == (rows - 1) * stride + stride,
        ;
    }
    assert(unfiltered_scanlines(rgba@.skip(off as int), stride as nat) =~= Seq::<u8>::empty());
    raw
}

/// Encode `rgba` (width*height*4 bytes) as an RGBA8 PNG with unfiltered
/// scanlines.
pub fn encode_rgba8(width: u32, height: u32, rgba: &[u8]) -> (png: Vec<u8>)
    requires
        rgba@.len() == width * height * 4,
        width > 0,
        width * 4 <= usize::MAX,
    ensures
        png@ == png_rgba8_bytes(width, height, rgba@),
        tokens_valid(lz_tokens(unfiltered_scanlines(rgba@, (width * 4) as nat))),
        expand(lz_tokens(unfiltered_scanlines(rgba@, (width * 4) as nat))) == unfiltered_scanlines(
            rgba@,
            (width * 4) as nat,
        ),
        height > 0 && zlib_stream(
            unfiltered_scanlines(rgba@, (width * 4) as nat),
            lz_tokens(unfiltered_scanlines(rgba@, (width * 4) as nat)),
        ).len() <= u32::MAX ==> decode_spec(png@) == Some((width, height, rgba@)),
{
    let stride = width as usize * 4;
    let raw = scanlines(rgba, stride);
    let mut out: Vec<u8> = Vec::new();
    push_sig(&mut out);
    let mut ihdr: Vec<u8> = Vec::new();
    push_be32(&mut ihdr, width);
    push_be32(&mut ihdr, height);
    ihdr.push(8);
    ihdr.push(6);
    ihdr.push(0);
    ihdr.push(0);
    ihdr.push(0);
    assert(ihdr@ =~= ihdr_rgba8(width, height));
    let ihdr_tag_v: [u8; 4] = [0x49, 0x48, 0x44, 0x52];
    assert(ihdr_tag_v@ =~= ihdr_tag());
    chunk(&mut out, &ihdr_tag_v, ihdr.as_slice());
    let (z, toks) = zlib_encode(raw.as_slice());
    let idat_tag_v: [u8; 4] = [0x49, 0x44, 0x41, 0x54];
    assert(idat_tag_v@ =~= idat_tag());
    chunk(&mut out, &idat_tag_v, z.as_slice());
    let iend_tag_v: [u8; 4] = [0x49, 0x45, 0x4E, 0x44];
    assert(iend_tag_v@ =~= iend_tag());
    let empty: Vec<u8> = Vec::new();
    chunk(&mut out, &iend_tag_v, empty.as_slice());
    assert(out@ =~= png_rgba8_file(width, height, rgba@, toks@));
    proof {
        if height > 0 && zlib_stream(raw@, toks@).len() <= u32::MAX {
            law_png_roundtrip(width, height, rgba@, toks@);
        }
    }
    out
}

/// The big-endian value of four bytes.
pub open spec fn be32_value(b0: u8, b1: u8, b2: u8, b3: u8) -> int {
    b0 as int * 16777216 + b1 as int * 65536 + b2 as int * 256 + b3 as int
}

pub fn read_be32(data: &[u8], at: usize) -> (v: u32)
    requires
        at + 4 <= data@.len(),
    ensures
        v as int == be32_value(data@[at as int], data@[at + 1], data@[at + 2], data@[at + 3]),
{
    (data[at] as u32) * 16777216 + (data[at + 1] as u32) * 65536 + (data[at + 2] as u32) * 256
        + data[at + 3] as u32
}

/// The header of a zlib stream is acceptable: deflate method, check bits
/// right, no preset dictionary.
pub open spec fn zlib_header_ok(data: Seq<u8>) -> bool {
    &&& data.len() >= 2
    &&& data[0] & 0x0F == 8
    &&& (data[0] as int * 256 + data[1] as int) % 31 == 0
    &&& data[1] & 0x20 == 0
}

/// The DEFLATE data of a zlib stream: after the two header bytes and
/// before the four-byte Adler-32 trailer (empty for streams under six
/// bytes).
pub open spec fn zlib_body(data: Seq<u8>) -> Seq<u8> {
    data.subrange(2, if data.len() >= 6 { data.len() - 4 } else { 2 })
}

/// What a zlib stream decodes to: the inflated body, checked against the
/// trailer when there is one.
pub open spec fn zlib_decode_spec(data: Seq<u8>) -> Option<Seq<u8>> {
    if !zlib_header_ok(data) {
        None
    } else {
        match inflate_spec(bytes_to_bits(zlib_body(data)), 0, Seq::empty()) {
            None => None,
            Some((_, out)) => {
                let n = data.len();
                if n >= 6 && adler32_spec(out) != be32_value(
                    data[n - 4],
                    data[n - 3],
                    data[n - 2],
                    data[n - 1],
                ) {
                    None
                } else {
                    Some(out)
                }
            },
        }
    }
}

/// The message `zlib_decode` returns for a stream it rejects.
pub open spec fn zlib_err(data: Seq<u8>) -> Seq<char> {
    if data.len() < 2 {
        "zlib: truncated header"@
    } else if data[0] & 0x0F != 8 {
        "zlib: not deflate"@
    } else if (data[0] as int * 256 + data[1] as int) % 31 != 0 {
        "zlib: bad header check"@
    } else if data[1] & 0x20 != 0 {
        "zlib: preset dictionary unsupported"@
    } else if inflate_spec(bytes_to_bits(zlib_body(data)), 0, Seq::empty()) is None {
        inflate_err(bytes_to_bits(zlib_body(data)), 0, Seq::empty())
    } else {
        "zlib: adler32 mismatch"@
    }
}

/// Inflate a zlib stream (RFC 1950 + RFC 1951).
pub fn zlib_decode(data: &[u8]) -> (res: Result<Vec<u8>, String>)
    ensures
        res is Ok <==> zlib_decode_spec(data@) is Some,
        res matches Ok(v) ==> v@ == zlib_decode_spec(data@).unwrap(),
        data@.len() < 2 ==> err_msg(res) == Some("zlib: truncated header"@),
        data@.len() >= 2 && data@[0] & 0x0F != 8 ==> err_msg(res) == Some("zlib: not deflate"@),
        data@.len() >= 2 && data@[0] & 0x0F == 8 && (data@[0] as int * 256 + data@[1] as int) % 31
            != 0 ==> err_msg(res) == Some("zlib: bad header check"@),
        data@.len() >= 2 && data@[0] & 0x0F == 8 && (data@[0] as int * 256 + data@[1] as int) % 31
            == 0 && data@[1] & 0x20 != 0 ==> err_msg(res) == Some(
            "zlib: preset dictionary unsupported"@,
        ),
        zlib_header_ok(data@) && inflate_spec(bytes_to_bits(zlib_body(data@)), 0, Seq::empty())
            is None ==> err_msg(res) == Some(
            inflate_err(bytes_to_bits(zlib_body(data@)), 0, Seq::empty()),
        ),
        zlib_header_ok(data@) && inflate_spec(bytes_to_bits(zlib_body(data@)), 0, Seq::empty())
            is Some && zlib_decode_spec(data@) is None ==> err_msg(res) == Some(
            "zlib: adler32 mismatch"@,
        ),
        res matches Err(e) ==> e@ == zlib_err(data@),
{
    if data.len() < 2 {
        return Err("zlib: truncated header".to_owned());
    }
    let b0 = data[0];
    let b1 = data[1];
    let cmf = b0 as u32;
    let flg = b1 as u32;
    if cmf & 0x0F != 8 {
        assert(b0 & 0x0F != 8) by (bit_vector)
            requires
                cmf == b0 as u32,
                cmf & 0x0F != 8,
        ;
        return Err("zlib: not deflate".to_owned());
    }
    assert(b0 & 0x0F == 8) by (bit_vector)
        requires
            cmf == b0 as u32,
            cmf & 0x0F == 8,
    ;
    if (cmf * 256 + flg) % 31 != 0 {
        return Err("zlib: bad header check".to_owned());
    }
    if flg & 0x20 != 0 {
        assert(b1 & 0x20 != 0) by (bit_vector)
            requires
                flg == b1 as u32,
                flg & 0x20 != 0,
        ;
        return Err("zlib: preset dictionary unsupported".to_owned());
    }
    assert(b1 & 0x20 == 0) by (bit_vector)
        requires
            flg == b1 as u32,
            flg & 0x20 == 0,
    ;
    let n = data.len();
    let end = if n >= 6 {
        n - 4
    } else {
        2
    };
    let body = &data[2..end];
    let mut r = BitReader::new(body);
    let mut out: Vec<u8> = Vec::new();
    inflate(&mut r, &mut out)?;
    if n >= 6 {
        let expect = read_be32(data, n - 4);
        if adler32(out.as_slice()) != expect {
            return Err("zlib: adler32 mismatch".to_owned());
        }
    }
    Ok(out)
}

} // verus!
