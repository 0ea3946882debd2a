use crate::checksum::crc32_spec;
use crate::deflate::{expand, tokens_valid, Token};
use crate::deflate_laws::{
    law_zlib_roundtrip, lemma_be32_value, lemma_seq_split,
};
use crate::png::{
    zlib_decode_spec, idat_tag, iend_tag, ihdr_rgba8, ihdr_tag, png_chunk, png_rgba8_file, png_signature,
    unfiltered_scanlines,
};
use crate::png_decode::{
    be32_at, decode_facts, decode_rows, decode_spec, initial_facts, plte_tag, recon, row_rgba,
    trns_tag, walk_spec, ChunkFacts,
};
use crate::zlib::{be32, zlib_stream};
use vstd::prelude::*;

verus! {

/// Row `y` of the scanline data: filter byte 0, then row `y` of the pixels.
pub open spec fn scanline_row(raw: Seq<u8>, rgba: Seq<u8>, stride: int, y: int) -> bool {
    &&& raw[y * (stride + 1)] == 0
    &&& raw.subrange(y * (stride + 1) + 1, y * (stride + 1) + 1 + stride) == rgba.subrange(
        y * stride,
        y * stride + stride,
    )
}

/// Unfiltered scanlines: `h` rows, each a zero filter byte and then the
/// row's `stride` bytes.
pub proof fn lemma_scanlines(rgba: Seq<u8>, stride: int, h: int)
    requires
        stride > 0,
        h >= 0,
        rgba.len() == h * stride,
    ensures
        unfiltered_scanlines(rgba, stride as nat).len() == h * (stride + 1),
        forall|y: int|
            0 <= y < h ==> #[trigger] scanline_row(
                unfiltered_scanlines(rgba, stride as nat),
                rgba,
                stride,
                y,
            ),
    decreases h,
{
    let raw = unfiltered_scanlines(rgba, stride as nat);
    if h == 0 {
        assert(raw =~= Seq::<u8>::empty());
    } else {
        assert(rgba.len() == (h - 1) * stride + stride) by (nonlinear_arith)
            requires
                rgba.len() == h * stride,
        ;
        let rest = rgba.skip(stride);
        lemma_scanlines(rest, stride, h - 1);
        let tail = unfiltered_scanlines(rest, stride as nat);
        assert(raw == seq![0u8] + rgba.take(stride) + tail);
        assert((h - 1) * (stride + 1) + stride + 1 == h * (stride + 1)) by (nonlinear_arith);
        assert forall|y: int| 0 <= y < h implies #[trigger] scanline_row(raw, rgba, stride, y) by {
            if y == 0 {
                assert(raw.subrange(1, 1 + stride) =~= rgba.take(stride));
                assert(rgba.subrange(0, stride) =~= rgba.take(stride));
            } else {
                let y1 = y - 1;
                assert(y * (stride + 1) == y1 * (stride + 1) + stride + 1) by (nonlinear_arith)
                    requires
                        y1 == y - 1,
                ;
                assert(y * stride == y1 * stride + stride) by (nonlinear_arith)
                    requires
                        y1 == y - 1,
                ;
                assert(0 <= y1 * stride) by (nonlinear_arith)
                    requires
                        y1 >= 0,
                        stride > 0,
                ;
                assert(y1 * stride + stride <= (h - 1) * stride) by (nonlinear_arith)
                    requires
                        y1 < h - 1,
                        stride > 0,
                ;
                assert(0 <= y1 * (stride + 1)) by (nonlinear_arith)
                    requires
                        y1 >= 0,
                        stride > 0,
                ;
                let o = y1 * (stride + 1);
                assert(o + stride + 1 <= (h - 1) * (stride + 1)) by (nonlinear_arith)
                    requires
                        o == y1 * (stride + 1),
                        y1 < h - 1,
                        stride > 0,
                ;
                assert(raw[y * (stride + 1)] == tail[o]);
                assert(raw.subrange(y * (stride + 1) + 1, y * (stride + 1) + 1 + stride)
                    =~= tail.subrange(o + 1, o + 1 + stride));
                assert(rest.subrange(y1 * stride, y1 * stride + stride) =~= rgba.subrange(
                    y * stride,
                    y * stride + stride,
                ));
                assert(scanline_row(tail, rest, stride, y1));
            }
        }
    }
}

/// Filter type 0 leaves the bytes as they are.
pub proof fn lemma_recon_none(filt: Seq<u8>, prev: Seq<u8>, bpp: int, n: nat)
    requires
        n <= filt.len(),
    ensures
        recon(filt, prev, 0, bpp, n) == filt.take(n as int),
    decreases n,
{
    if n > 0 {
        lemma_recon_none(filt, prev, bpp, (n - 1) as nat);
        let x = n - 1;
        assert((filt[x] as int + 0) % 256 == filt[x] as int);
        assert(filt.take(n as int) =~= filt.take(x).push(filt[x]));
    } else {
        assert(filt.take(0) =~= Seq::<u8>::empty());
    }
}

/// RGBA8 pixels are taken as they are.
pub proof fn lemma_row_rgba8(cur: Seq<u8>, n: nat)
    requires
        4 * n <= cur.len(),
    ensures
        row_rgba(cur, 4, 6, Seq::empty(), Seq::empty(), n) == Some(cur.take(4 * n as int)),
    decreases n,
{
    if n > 0 {
        lemma_row_rgba8(cur, (n - 1) as nat);
        let px = (n - 1) * 4;
        assert(cur.take(4 * n as int) =~= cur.take(4 * (n - 1) as int) + seq![
            cur[px],
            cur[px + 1],
            cur[px + 2],
            cur[px + 3],
        ]);
    } else {
        assert(cur.take(0) =~= Seq::<u8>::empty());
    }
}

/// Reading back the first `y` unfiltered RGBA8 rows gives the first `y`
/// rows of pixels.
pub proof fn lemma_decode_rows(rgba: Seq<u8>, w: int, h: int, y: int)
    requires
        w > 0,
        0 <= y <= h,
        rgba.len() == h * (4 * w),
    ensures
        decode_rows(
            unfiltered_scanlines(rgba, (4 * w) as nat),
            w,
            4 * w,
            4,
            6,
            Seq::empty(),
            Seq::empty(),
            y as nat,
        ) matches Some((_, out)) && out == rgba.take(y * (4 * w)),
    decreases y,
{
    let st = 4 * w;
    let raw = unfiltered_scanlines(rgba, st as nat);
    if y == 0 {
        assert(rgba.take(0) =~= Seq::<u8>::empty());
    } else {
        lemma_decode_rows(rgba, w, h, y - 1);
        lemma_scanlines(rgba, st, h);
        let y1 = y - 1;
        let rs = y1 * (st + 1);
        assert(0 <= rs && rs + st + 1 <= h * (st + 1)) by (nonlinear_arith)
            requires
                rs == y1 * (st + 1),
                0 <= y1 < h,
                st > 0,
        ;
        assert(scanline_row(raw, rgba, st, y1));
        assert(raw[rs] == 0);
        let prev = decode_rows(raw, w, st, 4, 6, Seq::empty(), Seq::empty(), y1 as nat).unwrap().0;
        let filt = raw.subrange(rs + 1, rs + 1 + st);
        lemma_recon_none(filt, prev, 4, st as nat);
        assert(filt.take(st) =~= filt);
        lemma_row_rgba8(filt, w as nat);
        assert(filt.take(4 * w) =~= filt);
        assert(y * st == y1 * st + st) by (nonlinear_arith)
            requires
                y1 == y - 1,
        ;
        assert(0 <= y1 * st) by (nonlinear_arith)
            requires
                y1 >= 0,
                st > 0,
        ;
        assert(y1 * st + st <= h * st) by (nonlinear_arith)
            requires
                y1 < h,
                st > 0,
        ;
        assert(rgba.take(y1 * st) + rgba.subrange(y1 * st, y1 * st + st) =~= rgba.take(y * st));
    }
}

/// A chunk at `pos`: its length field, type, data and CRC field.
pub proof fn lemma_chunk_at(b: Seq<u8>, pos: int, kind: Seq<u8>, data: Seq<u8>)
    requires
        0 <= pos,
        kind.len() == 4,
        data.len() <= u32::MAX,
        pos + 12 + data.len() <= b.len(),
        b.subrange(pos, pos + 12 + data.len()) == png_chunk(kind, data),
    ensures
        be32_at(b, pos) == data.len(),
        b.subrange(pos + 4, pos + 8) == kind,
        b.subrange(pos + 8, pos + 8 + data.len()) == data,
        be32_at(b, pos + 8 + data.len()) == crc32_spec(kind + data) as int,
{
    let n = data.len() as int;
    let l = be32(data.len() as u32);
    let c = be32(crc32_spec(kind + data));
    lemma_seq_split(b, pos, l + kind + data, c);
    lemma_seq_split(b, pos, l + kind, data);
    lemma_seq_split(b, pos, l, kind);
    lemma_be32_value(data.len() as u32);
    lemma_be32_value(crc32_spec(kind + data));
    let lb = b.subrange(pos, pos + 4);
    assert(b[pos] == lb[0] && b[pos + 1] == lb[1] && b[pos + 2] == lb[2] && b[pos + 3] == lb[3]);
    let e = pos + 8 + n;
    let cb = b.subrange(e, e + 4);
    assert(b[e] == cb[0] && b[e + 1] == cb[1] && b[e + 2] == cb[2] && b[e + 3] == cb[3]);
}

/// The file's chunks, walked: the IHDR facts and the IDAT data.
#[verifier::rlimit(100)]
proof fn lemma_walk_file(width: u32, height: u32, z: Seq<u8>, f: Seq<u8>)
    requires
        z.len() <= u32::MAX,
        f == png_signature() + png_chunk(ihdr_tag(), ihdr_rgba8(width, height)) + png_chunk(
            idat_tag(),
            z,
        ) + png_chunk(iend_tag(), Seq::empty()),
    ensures
        walk_spec(f, 8, initial_facts()) == Some::<ChunkFacts>(
            (width, height, 8u8, 6u8, 0u8, z, Seq::empty(), Seq::empty()),
        ),
{
    let ih = ihdr_rgba8(width, height);
    let c1 = png_chunk(ihdr_tag(), ih);
    let c2 = png_chunk(idat_tag(), z);
    let c3 = png_chunk(iend_tag(), Seq::empty());
    let p2 = 8 + c1.len() as int;
    let p3 = p2 + c2.len() as int;
    assert(c1.len() == 25);
    assert(f.subrange(8, p2) =~= c1);
    assert(f.subrange(p2, p3) =~= c2);
    assert(f.subrange(p3, p3 + 12) =~= c3);
    lemma_chunk_at(f, 8, ihdr_tag(), ih);
    lemma_chunk_at(f, p2, idat_tag(), z);
    lemma_chunk_at(f, p3, iend_tag(), Seq::empty());
    assert(ih[8] == 8 && ih[9] == 6 && ih[10] == 0 && ih[11] == 0 && ih[12] == 0);
    lemma_be32_value(width);
    lemma_be32_value(height);
    assert(ih.subrange(0, 4) =~= be32(width));
    assert(ih.subrange(4, 8) =~= be32(height));
    assert(ih[0] == be32(width)[0] && ih[1] == be32(width)[1] && ih[2] == be32(width)[2] && ih[3]
        == be32(width)[3]);
    assert(ih[4] == be32(height)[0] && ih[5] == be32(height)[1] && ih[6] == be32(height)[2]
        && ih[7] == be32(height)[3]);
    let st1: ChunkFacts = (width, height, 8u8, 6u8, 0u8, Seq::empty(), Seq::empty(), Seq::empty());
    assert(initial_facts().5 =~= Seq::<u8>::empty());
    assert(walk_spec(f, 8, initial_facts()) == walk_spec(f, p2, st1));
    assert(idat_tag()[1] != ihdr_tag()[1]);
    assert(idat_tag()[0] != plte_tag()[0]);
    assert(idat_tag()[0] != trns_tag()[0]);
    let st2: ChunkFacts = (width, height, 8u8, 6u8, 0u8, z, Seq::empty(), Seq::empty());
    assert(Seq::<u8>::empty() + z =~= z);
    assert(walk_spec(f, p2, st1) == walk_spec(f, p3, st2));
    assert(iend_tag()[1] != ihdr_tag()[1]);
    assert(iend_tag()[0] != plte_tag()[0]);
    assert(iend_tag()[0] != trns_tag()[0]);
    assert(iend_tag()[1] != idat_tag()[1]);
    assert(walk_spec(f, p3, st2) == Some(st2));
}

/// The collected facts of an unfiltered 8-bit RGBA image decode to its
/// pixels.
#[verifier::rlimit(100)]
proof fn lemma_decode_facts(width: u32, height: u32, rgba: Seq<u8>, z: Seq<u8>)
    requires
        width > 0,
        height > 0,
        rgba.len() == height * (4 * width),
        zlib_decode_spec(z) == Some(unfiltered_scanlines(rgba, (4 * width) as nat)),
    ensures
        decode_facts((width, height, 8u8, 6u8, 0u8, z, Seq::empty(), Seq::empty())) == Some(
            (width, height, rgba),
        ),
{
    let w = width as int;
    let h = height as int;
    let st = 4 * w;
    let raw = unfiltered_scanlines(rgba, st as nat);
    lemma_scanlines(rgba, st, h);
    lemma_decode_rows(rgba, w, h, h);
    assert(rgba.take(h * st) =~= rgba);
    assert(w * 4 == st);
    assert(raw.len() == (st + 1) * h) by (nonlinear_arith)
        requires
            raw.len() == h * (st + 1),
    ;
}

/// Decoding the PNG the encoder writes gives back the image: its width,
/// height and RGBA8 pixels. This holds for every non-empty image whose
/// compressed data fits a chunk's 32-bit length field, whatever tokens
/// the compressor chose, as long as they stand for the scanlines.
pub proof fn law_png_roundtrip(width: u32, height: u32, rgba: Seq<u8>, ts: Seq<Token>)
    requires
        width > 0,
        height > 0,
        rgba.len() == width * height * 4,
        tokens_valid(ts),
        expand(ts) == unfiltered_scanlines(rgba, (width * 4) as nat),
        zlib_stream(unfiltered_scanlines(rgba, (width * 4) as nat), ts).len() <= u32::MAX,
    ensures
        decode_spec(png_rgba8_file(width, height, rgba, ts)) == Some((width, height, rgba)),
{
    let w = width as int;
    let h = height as int;
    let raw = unfiltered_scanlines(rgba, (width * 4) as nat);
    let z = zlib_stream(raw, ts);
    let f = png_rgba8_file(width, height, rgba, ts);
    assert(rgba.len() == h * (4 * w)) by (nonlinear_arith)
        requires
            rgba.len() == w * h * 4,
    ;
    assert((width * 4) as nat == (4 * width) as nat);
    lemma_walk_file(width, height, z, f);
    assert(f.take(8) =~= png_signature());
    law_zlib_roundtrip(raw, ts);
    lemma_decode_facts(width, height, rgba, z);
}

/// What the decoder rejects: a file without the PNG signature; a walk
/// that reaches a chunk whose stored CRC differs from the CRC of its type
/// and data (such a walk fails, and a failed walk rejects the file); and
/// a file whose walk ends without a non-empty image header.
pub proof fn law_decode_rejects(b: Seq<u8>, pos: int, st: ChunkFacts)
    ensures
        b.len() < 8 || b.take(8) != png_signature() ==> decode_spec(b) is None,
        ({
            let len = be32_at(b, pos);
            let de = pos + 8 + len;
            0 <= pos && pos + 12 <= b.len() && de + 4 <= b.len() && crc32_spec(
                b.subrange(pos + 4, pos + 8) + b.subrange(pos + 8, de),
            ) as int != be32_at(b, de)
        }) ==> walk_spec(b, pos, st) is None,
        walk_spec(b, 8, initial_facts()) is None ==> decode_spec(b) is None,
        (walk_spec(b, 8, initial_facts()) matches Some(f) && (f.0 == 0 || f.1 == 0)) ==> decode_spec(
            b,
        ) is None,
{
}

} // verus!
