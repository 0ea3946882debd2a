use crate::checksum::{crc32, crc32_spec};
use crate::png::{
    be32_value, idat_tag, iend_tag, ihdr_tag, png_signature, read_be32, zlib_decode,
    zlib_decode_spec,
};
use crate::png::zlib_err;
use crate::text::{decimal_chars, err_msg, string_from_utf8, u128_to_string, u64_to_string};
use crate::error::concat_str;
use vstd::utf8::{decode_utf8, valid_utf8};
use crate::zlib::push_slice;
use vstd::prelude::*;

verus! {

pub open spec fn plte_tag() -> Seq<u8> {
    seq![0x50u8, 0x4C, 0x54, 0x45]
}

pub open spec fn trns_tag() -> Seq<u8> {
    seq![0x74u8, 0x52, 0x4E, 0x53]
}

/// What the chunk walk collects: width, height, bit depth, colour type,
/// interlace method, the concatenated IDAT data, PLTE and tRNS.
pub type ChunkFacts = (u32, u32, u8, u8, u8, Seq<u8>, Seq<u8>, Seq<u8>);

pub open spec fn initial_facts() -> ChunkFacts {
    (0, 0, 0, 0, 0, Seq::empty(), Seq::empty(), Seq::empty())
}

pub open spec fn be32_at(b: Seq<u8>, at: int) -> int {
    be32_value(b[at], b[at + 1], b[at + 2], b[at + 3])
}

/// Walk the chunks from `pos` (stopping at IEND or when fewer than twelve
/// bytes remain), checking lengths and CRCs and collecting the facts the
/// decoder needs; `None` on a truncated chunk, a CRC mismatch, or a
/// malformed IHDR.
pub open spec fn walk_spec(b: Seq<u8>, pos: int, st: ChunkFacts) -> Option<ChunkFacts>
    decreases b.len() - pos,
{
    if pos < 0 || pos > b.len() {
        None
    } else if pos + 12 > b.len() {
        Some(st)
    } else {
        let len = be32_at(b, pos);
        let kind = b.subrange(pos + 4, pos + 8);
        let ds = pos + 8;
        let de = ds + len;
        if de + 4 > b.len() {
            None
        } else {
            let data = b.subrange(ds, de);
            if crc32_spec(kind + data) as int != be32_at(b, de) {
                None
            } else if kind == ihdr_tag() {
                if len != 13 {
                    None
                } else if data[10] != 0 || data[11] != 0 {
                    None
                } else {
                    walk_spec(
                        b,
                        de + 4,
                        (
                            be32_at(data, 0) as u32,
                            be32_at(data, 4) as u32,
                            data[8],
                            data[9],
                            data[12],
                            st.5,
                            st.6,
                            st.7,
                        ),
                    )
                }
            } else if kind == plte_tag() {
                walk_spec(b, de + 4, (st.0, st.1, st.2, st.3, st.4, st.5, data, st.7))
            } else if kind == trns_tag() {
                walk_spec(b, de + 4, (st.0, st.1, st.2, st.3, st.4, st.5, st.6, data))
            } else if kind == idat_tag() {
                walk_spec(b, de + 4, (st.0, st.1, st.2, st.3, st.4, st.5 + data, st.6, st.7))
            } else if kind == iend_tag() {
                Some(st)
            } else {
                walk_spec(b, de + 4, st)
            }
        }
    }
}

/// Bytes per pixel of the supported 8-bit colour types.
pub open spec fn bpp_of(color: u8) -> Option<int> {
    if color == 0 {
        Some(1)
    } else if color == 2 {
        Some(3)
    } else if color == 3 {
        Some(1)
    } else if color == 4 {
        Some(2)
    } else if color == 6 {
        Some(4)
    } else {
        None
    }
}

/// The Paeth predictor (PNG specification §9.4).
pub open spec fn paeth_spec(a: int, b: int, c: int) -> int {
    let p = a + b - c;
    let pa = if p >= a { p - a } else { a - p };
    let pb = if p >= b { p - b } else { b - p };
    let pc = if p >= c { p - c } else { c - p };
    if pa <= pb && pa <= pc {
        a
    } else if pb <= pc {
        b
    } else {
        c
    }
}

/// The prediction of filter type `f` from the left (`a`), up (`b`) and
/// upper-left (`c`) bytes.
pub open spec fn predict(f: u8, a: u8, b: u8, c: u8) -> int {
    if f == 1 {
        a as int
    } else if f == 2 {
        b as int
    } else if f == 3 {
        (a as int + b as int) / 2
    } else if f == 4 {
        paeth_spec(a as int, b as int, c as int)
    } else {
        0
    }
}

/// The first `n` reconstructed bytes of a scanline with filter type `f`
/// and filtered bytes `filt`, given the previous reconstructed line.
pub open spec fn recon(filt: Seq<u8>, prev: Seq<u8>, f: u8, bpp: int, n: nat) -> Seq<u8>
    decreases n,
{
    if n == 0 {
        Seq::empty()
    } else {
        let r = recon(filt, prev, f, bpp, (n - 1) as nat);
        let x = n - 1;
        let a: u8 = if x >= bpp {
            r[x - bpp]
        } else {
            0
        };
        let c: u8 = if x >= bpp {
            prev[x - bpp]
        } else {
            0
        };
        r.push(((filt[x] as int + predict(f, a, prev[x], c)) % 256) as u8)
    }
}

/// The RGBA8 value of pixel `x` of a reconstructed line.
pub open spec fn pixel_rgba(
    cur: Seq<u8>,
    x: int,
    bpp: int,
    color: u8,
    palette: Seq<u8>,
    trns: Seq<u8>,
) -> Option<Seq<u8>> {
    let px = x * bpp;
    if color == 0 {
        Some(seq![cur[px], cur[px], cur[px], 255u8])
    } else if color == 2 {
        Some(seq![cur[px], cur[px + 1], cur[px + 2], 255u8])
    } else if color == 3 {
        let idx = cur[px] as int * 3;
        if idx + 2 >= palette.len() {
            None
        } else {
            Some(
                seq![palette[idx], palette[idx + 1], palette[idx + 2], if (cur[px] as int)
                    < trns.len() {
                    trns[cur[px] as int]
                } else {
                    255u8
                }],
            )
        }
    } else if color == 4 {
        Some(seq![cur[px], cur[px], cur[px], cur[px + 1]])
    } else {
        Some(seq![cur[px], cur[px + 1], cur[px + 2], cur[px + 3]])
    }
}

/// RGBA8 bytes of the first `n` pixels of a reconstructed line.
pub open spec fn row_rgba(
    cur: Seq<u8>,
    bpp: int,
    color: u8,
    palette: Seq<u8>,
    trns: Seq<u8>,
    n: nat,
) -> Option<Seq<u8>>
    decreases n,
{
    if n == 0 {
        Some(Seq::empty())
    } else {
        match row_rgba(cur, bpp, color, palette, trns, (n - 1) as nat) {
            None => None,
            Some(o) => match pixel_rgba(cur, n - 1, bpp, color, palette, trns) {
                None => None,
                Some(p) => Some(o + p),
            },
        }
    }
}

/// Reconstruct and convert the first `y` scanlines of the decompressed
/// image data: the last reconstructed line and the RGBA8 output so far.
pub open spec fn decode_rows(
    raw: Seq<u8>,
    w: int,
    stride: int,
    bpp: int,
    color: u8,
    palette: Seq<u8>,
    trns: Seq<u8>,
    y: nat,
) -> Option<(Seq<u8>, Seq<u8>)>
    decreases y,
{
    if y == 0 {
        Some((Seq::new(stride as nat, |i: int| 0u8), Seq::empty()))
    } else {
        match decode_rows(raw, w, stride, bpp, color, palette, trns, (y - 1) as nat) {
            None => None,
            Some((prev, out)) => {
                let rs = (y - 1) * (stride + 1);
                let f = raw[rs];
                if f > 4 {
                    None
                } else {
                    let cur = recon(raw.subrange(rs + 1, rs + 1 + stride), prev, f, bpp, stride as nat);
                    match row_rgba(cur, bpp, color, palette, trns, w as nat) {
                        None => None,
                        Some(px) => Some((cur, out + px)),
                    }
                }
            },
        }
    }
}

/// What `decode_rgba8` returns for a PNG file: width, height and RGBA8
/// pixels, or `None` when the file is rejected.
pub open spec fn decode_spec(b: Seq<u8>) -> Option<(u32, u32, Seq<u8>)> {
    if b.len() < 8 || b.take(8) != png_signature() {
        None
    } else {
        match walk_spec(b, 8, initial_facts()) {
            None => None,
            Some(st) => decode_facts(st),
        }
    }
}

/// The image the collected chunk facts describe.
pub open spec fn decode_facts(st: ChunkFacts) -> Option<(u32, u32, Seq<u8>)> {
                let (w, h, depth, color, interlace, idat, palette, trns) = st;
                if w == 0 || h == 0 || interlace != 0 || depth != 8 {
                    None
                } else {
                    match bpp_of(color) {
                        None => None,
                        Some(bpp) => {
                            if color == 3 && palette.len() == 0 {
                                None
                            } else {
                                match zlib_decode_spec(idat) {
                                    None => None,
                                    Some(raw) => {
                                        let stride = w * bpp;
                                        if raw.len() < (stride + 1) * h {
                                            None
                                        } else {
                                            match decode_rows(
                                                raw,
                                                w as int,
                                                stride,
                                                bpp,
                                                color,
                                                palette,
                                                trns,
                                                h as nat,
                                            ) {
                                                None => None,
                                                Some((_, out)) => Some((w, h, out)),
                                            }
                                        }
                                    },
                                }
                            }
                        },
                    }
                }
}

/// How messages name a chunk type: its text when it is UTF-8, else `????`.
pub open spec fn kind_text(kind: Seq<u8>) -> Seq<char> {
    if valid_utf8(kind) {
        decode_utf8(kind)
    } else {
        "????"@
    }
}

/// The message for a chunk walk from `pos` that fails.
pub open spec fn walk_err(b: Seq<u8>, pos: int) -> Seq<char>
    decreases b.len() - pos,
{
    if pos < 0 || pos + 12 > b.len() {
        "png: truncated chunk"@
    } else {
        let len = be32_at(b, pos);
        let kind = b.subrange(pos + 4, pos + 8);
        let ds = pos + 8;
        let de = ds + len;
        if de + 4 > b.len() {
            "png: truncated chunk"@
        } else {
            let data = b.subrange(ds, de);
            if crc32_spec(kind + data) as int != be32_at(b, de) {
                "png: CRC mismatch in "@ + kind_text(kind)
            } else if kind == ihdr_tag() && len != 13 {
                "png: bad IHDR"@
            } else if kind == ihdr_tag() && (data[10] != 0 || data[11] != 0) {
                "png: bad compression/filter method"@
            } else {
                walk_err(b, de + 4)
            }
        }
    }
}

/// The message for the first scanline among the first `y` that fails.
pub open spec fn rows_err(
    raw: Seq<u8>,
    w: int,
    stride: int,
    bpp: int,
    color: u8,
    palette: Seq<u8>,
    trns: Seq<u8>,
    y: nat,
) -> Seq<char>
    decreases y,
{
    if y == 0 {
        "png: bad filter"@
    } else {
        match decode_rows(raw, w, stride, bpp, color, palette, trns, (y - 1) as nat) {
            None => rows_err(raw, w, stride, bpp, color, palette, trns, (y - 1) as nat),
            Some(_) => {
                let f = raw[(y - 1) * (stride + 1)];
                if f > 4 {
                    "png: bad filter "@ + decimal_chars(f as nat)
                } else {
                    "png: palette index out of range"@
                }
            },
        }
    }
}

/// The message for chunk facts that do not describe a decodable image.
pub open spec fn facts_err(st: ChunkFacts) -> Seq<char> {
    let (w, h, depth, color, interlace, idat, palette, trns) = st;
    if w == 0 || h == 0 {
        "png: missing IHDR"@
    } else if interlace != 0 {
        "png: interlaced images unsupported"@
    } else if depth != 8 {
        "png: bit depth "@ + decimal_chars(depth as nat) + " unsupported (need 8)"@
    } else {
        match bpp_of(color) {
            None => "png: color type "@ + decimal_chars(color as nat) + " unsupported"@,
            Some(bpp) => if color == 3 && palette.len() == 0 {
                "png: palette image without PLTE"@
            } else {
                match zlib_decode_spec(idat) {
                    None => zlib_err(idat),
                    Some(raw) => {
                        let stride = w * bpp;
                        if raw.len() < (stride + 1) * h {
                            "png: image data too short ("@ + decimal_chars(raw.len()) + " < "@
                                + decimal_chars(((stride + 1) * h) as nat) + ")"@
                        } else {
                            rows_err(raw, w as int, stride, bpp, color, palette, trns, h as nat)
                        }
                    },
                }
            },
        }
    }
}

/// The message `decode_rgba8` returns for a file it rejects.
pub open spec fn decode_err(b: Seq<u8>) -> Seq<char> {
    if b.len() < 8 || b.take(8) != png_signature() {
        "png: bad signature"@
    } else {
        match walk_spec(b, 8, initial_facts()) {
            None => walk_err(b, 8),
            Some(st) => facts_err(st),
        }
    }
}

proof fn lemma_rows_err_first(
    raw: Seq<u8>,
    w: int,
    stride: int,
    bpp: int,
    color: u8,
    palette: Seq<u8>,
    trns: Seq<u8>,
    y: nat,
    z: nat,
)
    requires
        y < z,
        decode_rows(raw, w, stride, bpp, color, palette, trns, y) is Some,
        decode_rows(raw, w, stride, bpp, color, palette, trns, y + 1) is None,
    ensures
        rows_err(raw, w, stride, bpp, color, palette, trns, z) == rows_err(
            raw,
            w,
            stride,
            bpp,
            color,
            palette,
            trns,
            y + 1,
        ),
    decreases z - y,
{
    if z > y + 1 {
        lemma_rows_err_first(raw, w, stride, bpp, color, palette, trns, y, (z - 1) as nat);
        lemma_decode_rows_none(raw, w, stride, bpp, color, palette, trns, y + 1, (z - 1) as nat);
    }
}

/// The Paeth predictor.
pub fn paeth(a: u8, b: u8, c: u8) -> (r: u8)
    ensures
        r as int == paeth_spec(a as int, b as int, c as int),
{
    let a = a as i32;
    let b = b as i32;
    let c = c as i32;
    let p = a + b - c;
    let pa = if p >= a {
        p - a
    } else {
        a - p
    };
    let pb = if p >= b {
        p - b
    } else {
        b - p
    };
    let pc = if p >= c {
        p - c
    } else {
        c - p
    };
    if pa <= pb && pa <= pc {
        a as u8
    } else if pb <= pc {
        b as u8
    } else {
        c as u8
    }
}

/// The chunk walk's findings.
pub struct ChunkInfo {
    pub width: u32,
    pub height: u32,
    pub depth: u8,
    pub color: u8,
    pub interlace: u8,
    pub idat: Vec<u8>,
    pub palette: Vec<u8>,
    pub trns: Vec<u8>,
}

impl ChunkInfo {
    pub open spec fn facts(&self) -> ChunkFacts {
        (
            self.width,
            self.height,
            self.depth,
            self.color,
            self.interlace,
            self.idat@,
            self.palette@,
            self.trns@,
        )
    }
}

fn copy_bytes(b: &[u8], from: usize, to: usize) -> (v: Vec<u8>)
    requires
        from <= to <= b@.len(),
    ensures
        v@ == b@.subrange(from as int, to as int),
{
    let mut v: Vec<u8> = Vec::new();
    push_slice(&mut v, &b[from..to]);
    v
}

fn tag_is(b: &[u8], at: usize, t0: u8, t1: u8, t2: u8, t3: u8) -> (r: bool)
    requires
        at + 4 <= b@.len(),
    ensures
        r <==> b@.subrange(at as int, at + 4) == seq![t0, t1, t2, t3],
{
    let r = b[at] == t0 && b[at + 1] == t1 && b[at + 2] == t2 && b[at + 3] == t3;
    assert(r <==> b@.subrange(at as int, at + 4) =~= seq![t0, t1, t2, t3]);
    r
}

/// Walk the chunks after the signature.
fn walk_chunks(b: &[u8]) -> (res: Result<ChunkInfo, String>)
    requires
        b@.len() >= 8,
    ensures
        res is Ok <==> walk_spec(b@, 8, initial_facts()) is Some,
        res matches Ok(info) ==> walk_spec(b@, 8, initial_facts()) == Some(info.facts()),
        res matches Err(e) ==> e@ == walk_err(b@, 8),
{
    let n = b.len();
    let mut info = ChunkInfo {
        width: 0,
        height: 0,
        depth: 0,
        color: 0,
        interlace: 0,
        idat: Vec::new(),
        palette: Vec::new(),
        trns: Vec::new(),
    };
    assert(info.facts() =~= initial_facts());
    let mut pos: usize = 8;
    while n - pos >= 12
        invariant
            n == b@.len(),
            8 <= pos <= n,
            walk_spec(b@, 8, initial_facts()) == walk_spec(b@, pos as int, info.facts()),
            walk_err(b@, 8) == walk_err(b@, pos as int),
        decreases n - pos,
    {
        let len = read_be32(b, pos);
        let ds = pos + 8;
        if (len as usize) > n - ds || n - ds - (len as usize) < 4 {
            return Err("png: truncated chunk".to_owned());
        }
        let de = ds + len as usize;
        let crc = read_be32(b, de);
        let mut crc_data: Vec<u8> = Vec::new();
        push_slice(&mut crc_data, &b[pos + 4..pos + 8]);
        push_slice(&mut crc_data, &b[ds..de]);
        assert(crc_data@ =~= b@.subrange(pos + 4, pos + 8) + b@.subrange(ds as int, de as int));
        if crc32(crc_data.as_slice()) != crc {
            let kind = copy_bytes(b, pos + 4, pos + 8);
            let name = match string_from_utf8(kind) {
                Some(k) => k,
                None => "????".to_owned(),
            };
            return Err(concat_str("png: CRC mismatch in ", name.as_str()));
        }
        let ghost data = b@.subrange(ds as int, de as int);
        if tag_is(b, pos + 4, 0x49, 0x48, 0x44, 0x52) {
            assert(seq![0x49u8, 0x48, 0x44, 0x52] =~= ihdr_tag());
            if len != 13 {
                return Err("png: bad IHDR".to_owned());
            }
            if b[ds + 10] != 0 || b[ds + 11] != 0 {
                return Err("png: bad compression/filter method".to_owned());
            }
            info.width = read_be32(b, ds);
            info.height = read_be32(b, ds + 4);
            info.depth = b[ds + 8];
            info.color = b[ds + 9];
            info.interlace = b[ds + 12];
        } else if tag_is(b, pos + 4, 0x50, 0x4C, 0x54, 0x45) {
            assert(seq![0x50u8, 0x4C, 0x54, 0x45] =~= plte_tag());
            assert(!(b@.subrange(pos + 4, pos + 8) == ihdr_tag()));
            info.palette = copy_bytes(b, ds, de);
        } else if tag_is(b, pos + 4, 0x74, 0x52, 0x4E, 0x53) {
            assert(seq![0x74u8, 0x52, 0x4E, 0x53] =~= trns_tag());
            assert(!(b@.subrange(pos + 4, pos + 8) == ihdr_tag()));
            assert(!(b@.subrange(pos + 4, pos + 8) == plte_tag()));
            info.trns = copy_bytes(b, ds, de);
        } else if tag_is(b, pos + 4, 0x49, 0x44, 0x41, 0x54) {
            assert(seq![0x49u8, 0x44, 0x41, 0x54] =~= idat_tag());
            assert(!(b@.subrange(pos + 4, pos + 8) == ihdr_tag()));
            assert(!(b@.subrange(pos + 4, pos + 8) == plte_tag()));
            assert(!(b@.subrange(pos + 4, pos + 8) == trns_tag()));
            push_slice(&mut info.idat, &b[ds..de]);
        } else if tag_is(b, pos + 4, 0x49, 0x45, 0x4E, 0x44) {
            assert(seq![0x49u8, 0x45, 0x4E, 0x44] =~= iend_tag());
            assert(!(b@.subrange(pos + 4, pos + 8) == ihdr_tag()));
            assert(!(b@.subrange(pos + 4, pos + 8) == plte_tag()));
            assert(!(b@.subrange(pos + 4, pos + 8) == trns_tag()));
            assert(!(b@.subrange(pos + 4, pos + 8) == idat_tag()));
            return Ok(info);
        } else {
            assert(!(b@.subrange(pos + 4, pos + 8) == ihdr_tag()));
            assert(!(b@.subrange(pos + 4, pos + 8) == plte_tag()));
            assert(!(b@.subrange(pos + 4, pos + 8) == trns_tag()));
            assert(!(b@.subrange(pos + 4, pos + 8) == idat_tag()));
            assert(!(b@.subrange(pos + 4, pos + 8) == iend_tag()));
        }
        pos = de + 4;
    }
    Ok(info)
}


fn predict_exec(f: u8, a: u8, b: u8, c: u8) -> (r: u8)
    requires
        f <= 4,
    ensures
        r as int == predict(f, a, b, c),
{
    if f == 1 {
        a
    } else if f == 2 {
        b
    } else if f == 3 {
        ((a as u32 + b as u32) / 2) as u8
    } else if f == 4 {
        paeth(a, b, c)
    } else {
        0
    }
}

/// Reconstruct one scanline from its filtered bytes and the previous line.
fn recon_row(filt: &[u8], prev: &Vec<u8>, f: u8, bpp: usize) -> (cur: Vec<u8>)
    requires
        filt@.len() == prev@.len(),
        f <= 4,
        1 <= bpp <= 4,
    ensures
        cur@ == recon(filt@, prev@, f, bpp as int, filt@.len()),
        cur@.len() == filt@.len(),
{
    let n = filt.len();
    let mut cur: Vec<u8> = Vec::new();
    let mut x: usize = 0;
    while x < n
        invariant
            n == filt@.len(),
            n == prev@.len(),
            x <= n,
            f <= 4,
            1 <= bpp <= 4,
            cur@ == recon(filt@, prev@, f, bpp as int, x as nat),
            cur@.len() == x,
        decreases n - x,
    {
        let a: u8 = if x >= bpp {
            cur[x - bpp]
        } else {
            0
        };
        let c: u8 = if x >= bpp {
            prev[x - bpp]
        } else {
            0
        };
        let p = predict_exec(f, a, prev[x], c);
        let v = ((filt[x] as u32 + p as u32) % 256) as u8;
        cur.push(v);
        x = x + 1;
    }
    cur
}

/// Append the RGBA8 value of the pixel starting at byte `px`.
fn push_pixel(
    cur: &Vec<u8>,
    x: Ghost<int>,
    px: usize,
    bpp: usize,
    color: u8,
    palette: &Vec<u8>,
    trns: &Vec<u8>,
    out: &mut Vec<u8>,
) -> (res: Result<(), String>)
    requires
        bpp_of(color) == Some(bpp as int),
        px == x@ * bpp,
        px + bpp <= cur@.len(),
    ensures
        res is Ok <==> pixel_rgba(cur@, x@, bpp as int, color, palette@, trns@) is Some,
        res is Ok ==> final(out)@ == old(out)@ + pixel_rgba(
            cur@,
            x@,
            bpp as int,
            color,
            palette@,
            trns@,
        ).unwrap(),
        res matches Err(e) ==> e@ == "png: palette index out of range"@,
{
    let cl = cur.len();
    if color == 0 {
        let g = cur[px];
        out.push(g);
        out.push(g);
        out.push(g);
        out.push(255);
    } else if color == 2 {
        assert(bpp == 3);
        out.push(cur[px]);
        out.push(cur[px + 1]);
        out.push(cur[px + 2]);
        out.push(255);
    } else if color == 3 {
        let idx = cur[px] as usize * 3;
        if idx + 2 >= palette.len() {
            return Err("png: palette index out of range".to_owned());
        }
        out.push(palette[idx]);
        out.push(palette[idx + 1]);
        out.push(palette[idx + 2]);
        let k = cur[px] as usize;
        if k < trns.len() {
            out.push(trns[k]);
        } else {
            out.push(255);
        }
    } else if color == 4 {
        assert(bpp == 2);
        let g = cur[px];
        out.push(g);
        out.push(g);
        out.push(g);
        out.push(cur[px + 1]);
    } else {
        assert(bpp == 4);
        out.push(cur[px]);
        out.push(cur[px + 1]);
        out.push(cur[px + 2]);
        out.push(cur[px + 3]);
    }
    assert(out@ =~= old(out)@ + pixel_rgba(cur@, x@, bpp as int, color, palette@, trns@).unwrap());
    Ok(())
}

proof fn lemma_row_rgba_none(
    cur: Seq<u8>,
    bpp: int,
    color: u8,
    palette: Seq<u8>,
    trns: Seq<u8>,
    n: nat,
    m: nat,
)
    requires
        n <= m,
        row_rgba(cur, bpp, color, palette, trns, n) is None,
    ensures
        row_rgba(cur, bpp, color, palette, trns, m) is None,
    decreases m - n,
{
    if n < m {
        lemma_row_rgba_none(cur, bpp, color, palette, trns, n, (m - 1) as nat);
    }
}

/// Append the RGBA8 pixels of one reconstructed line.
fn row_to_rgba(
    cur: &Vec<u8>,
    w: usize,
    bpp: usize,
    color: u8,
    palette: &Vec<u8>,
    trns: &Vec<u8>,
    out: &mut Vec<u8>,
) -> (res: Result<(), String>)
    requires
        bpp_of(color) == Some(bpp as int),
        1 <= bpp <= 4,
        cur@.len() == w * bpp,
    ensures
        res is Ok <==> row_rgba(cur@, bpp as int, color, palette@, trns@, w as nat) is Some,
        res is Ok ==> final(out)@ == old(out)@ + row_rgba(
            cur@,
            bpp as int,
            color,
            palette@,
            trns@,
            w as nat,
        ).unwrap(),
        res matches Err(e) ==> e@ == "png: palette index out of range"@,
{
    let mut x: usize = 0;
    let mut px: usize = 0;
    let cl = cur.len();
    assert(out@ =~= old(out)@ + Seq::<u8>::empty());
    while x < w
        invariant
            cl == cur@.len(),
            bpp_of(color) == Some(bpp as int),
            1 <= bpp <= 4,
            cur@.len() == w * bpp,
            x <= w,
            px == x * bpp,
            row_rgba(cur@, bpp as int, color, palette@, trns@, x as nat) is Some,
            out@ == old(out)@ + row_rgba(cur@, bpp as int, color, palette@, trns@, x as nat).unwrap(),
        decreases w - x,
    {
        assert(px + bpp <= w * bpp) by (nonlinear_arith)
            requires
                px == x * bpp,
                x < w,
        ;
        let ghost before = out@;
        match push_pixel(cur, Ghost(x as int), px, bpp, color, palette, trns, out) {
            Ok(()) => {},
            Err(e) => {
                proof {
                    lemma_row_rgba_none(
                        cur@,
                        bpp as int,
                        color,
                        palette@,
                        trns@,
                        (x + 1) as nat,
                        w as nat,
                    );
                }
                return Err(e);
            },
        }
        assert(out@ =~= old(out)@ + row_rgba(
            cur@,
            bpp as int,
            color,
            palette@,
            trns@,
            (x + 1) as nat,
        ).unwrap());
        assert(px + bpp == (x + 1) * bpp) by (nonlinear_arith)
            requires
                px == x * bpp,
        ;
        x = x + 1;
        px = px + bpp;
    }
    Ok(())
}

proof fn lemma_decode_rows_none(
    raw: Seq<u8>,
    w: int,
    stride: int,
    bpp: int,
    color: u8,
    palette: Seq<u8>,
    trns: Seq<u8>,
    y: nat,
    z: nat,
)
    requires
        y <= z,
        decode_rows(raw, w, stride, bpp, color, palette, trns, y) is None,
    ensures
        decode_rows(raw, w, stride, bpp, color, palette, trns, z) is None,
    decreases z - y,
{
    if y < z {
        lemma_decode_rows_none(raw, w, stride, bpp, color, palette, trns, y, (z - 1) as nat);
    }
}

fn bpp_exec(color: u8) -> (r: Option<usize>)
    ensures
        r matches Some(b) ==> bpp_of(color) == Some(b as int) && 1 <= b <= 4,
        r is None <==> bpp_of(color) is None,
{
    if color == 0 {
        Some(1)
    } else if color == 2 {
        Some(3)
    } else if color == 3 {
        Some(1)
    } else if color == 4 {
        Some(2)
    } else if color == 6 {
        Some(4)
    } else {
        None
    }
}

/// Reconstruct and convert all `h` scanlines of the decompressed data.
fn decode_image_rows(
    raw: &Vec<u8>,
    w: u32,
    h: u32,
    bpp: usize,
    color: u8,
    palette: &Vec<u8>,
    trns: &Vec<u8>,
) -> (res: Result<Vec<u8>, String>)
    requires
        1 <= bpp <= 4,
        bpp_of(color) == Some(bpp as int),
        h >= 1,
        raw@.len() >= (w * bpp + 1) * h,
    ensures
        res is Ok <==> decode_rows(
            raw@,
            w as int,
            w * bpp,
            bpp as int,
            color,
            palette@,
            trns@,
            h as nat,
        ) is Some,
        res matches Ok(out) ==> decode_rows(
            raw@,
            w as int,
            w * bpp,
            bpp as int,
            color,
            palette@,
            trns@,
            h as nat,
        ).unwrap().1 == out@,
        res matches Err(e) ==> e@ == rows_err(
            raw@,
            w as int,
            w * bpp,
            bpp as int,
            color,
            palette@,
            trns@,
            h as nat,
        ),
{
    assert(w as int * bpp as int + 1 <= (w as int * bpp as int + 1) * h as int) by (nonlinear_arith)
        requires
            h >= 1,
            w as int * bpp as int + 1 >= 0,
    ;
    let rawlen = raw.len();
    assert(w as int * bpp as int <= rawlen);
    let stride: usize = w as usize * bpp;
    let wz = w as usize;
    let hz = h as usize;
    let mut prev: Vec<u8> = vec![0u8; stride];
    let mut out: Vec<u8> = Vec::new();
    let mut y: usize = 0;
    let mut rs: usize = 0;
    assert(prev@ =~= Seq::new(stride as nat, |i: int| 0u8));
    while y < hz
        invariant
            rawlen == raw@.len(),
            hz == h,
            wz == w,
            stride == w * bpp,
            1 <= bpp <= 4,
            bpp_of(color) == Some(bpp as int),
            raw@.len() >= (stride + 1) * h,
            y <= hz,
            rs == y * (stride + 1),
            prev@.len() == stride,
            decode_rows(raw@, w as int, stride as int, bpp as int, color, palette@, trns@, y as nat)
                == Some((prev@, out@)),
        decreases hz - y,
    {
        assert(rs + 1 + stride <= (stride + 1) * h) by (nonlinear_arith)
            requires
                rs == y * (stride + 1),
                y < h,
        ;
        let f = raw[rs];
        if f > 4 {
            proof {
                lemma_decode_rows_none(
                    raw@,
                    w as int,
                    stride as int,
                    bpp as int,
                    color,
                    palette@,
                    trns@,
                    (y + 1) as nat,
                    h as nat,
                );
                if y + 1 < h {
                    lemma_rows_err_first(
                        raw@,
                        w as int,
                        stride as int,
                        bpp as int,
                        color,
                        palette@,
                        trns@,
                        y as nat,
                        h as nat,
                    );
                }
            }
            let fs = u64_to_string(f as u64);
            return Err(concat_str("png: bad filter ", fs.as_str()));
        }
        let cur = recon_row(&raw.as_slice()[rs + 1..rs + 1 + stride], &prev, f, bpp);
        match row_to_rgba(&cur, wz, bpp, color, palette, trns, &mut out) {
            Ok(()) => {},
            Err(e) => {
                proof {
                    lemma_decode_rows_none(
                        raw@,
                        w as int,
                        stride as int,
                        bpp as int,
                        color,
                        palette@,
                        trns@,
                        (y + 1) as nat,
                        h as nat,
                    );
                    if y + 1 < h {
                        lemma_rows_err_first(
                            raw@,
                            w as int,
                            stride as int,
                            bpp as int,
                            color,
                            palette@,
                            trns@,
                            y as nat,
                            h as nat,
                        );
                    }
                }
                return Err(e);
            },
        }
        prev = cur;
        y = y + 1;
        rs = rs + stride + 1;
        assert(rs == y * (stride + 1)) by (nonlinear_arith)
            requires
                rs == (y - 1) * (stride + 1) + stride + 1,
        ;
    }
    Ok(out)
}

/// Check the collected facts, inflate the image data and decode it.
fn decode_from_facts(info: ChunkInfo) -> (res: Result<(u32, u32, Vec<u8>), String>)
    ensures
        res is Ok <==> decode_facts(info.facts()) is Some,
        res matches Ok(t) ==> decode_facts(info.facts()) == Some((t.0, t.1, t.2@)),
        res matches Err(e) ==> e@ == facts_err(info.facts()),
{
    let w = info.width;
    let h = info.height;
    if w == 0 || h == 0 {
        return Err("png: missing IHDR".to_owned());
    }
    if info.interlace != 0 {
        return Err("png: interlaced images unsupported".to_owned());
    }
    if info.depth != 8 {
        let d = u64_to_string(info.depth as u64);
        let head = concat_str("png: bit depth ", d.as_str());
        return Err(concat_str(head.as_str(), " unsupported (need 8)"));
    }
    let bpp = match bpp_exec(info.color) {
        Some(b) => b,
        None => {
            let c = u64_to_string(info.color as u64);
            let head = concat_str("png: color type ", c.as_str());
            return Err(concat_str(head.as_str(), " unsupported"));
        },
    };
    if info.color == 3 && info.palette.len() == 0 {
        return Err("png: palette image without PLTE".to_owned());
    }
    let raw = zlib_decode(info.idat.as_slice())?;
    let w64: u64 = w as u64;
    let b64: u64 = bpp as u64;
    assert(w64 * b64 <= 0xffff_ffff * 4) by (nonlinear_arith)
        requires
            w64 <= 0xffff_ffff,
            b64 <= 4,
    ;
    let wb: u64 = w64 * b64;
    let wb1: u128 = wb as u128 + 1;
    let h128: u128 = h as u128;
    assert(wb1 * h128 <= 0x4_0000_0000 * 0xffff_ffff) by (nonlinear_arith)
        requires
            wb1 <= 0x4_0000_0000,
            h128 <= 0xffff_ffff,
    ;
    let expected: u128 = wb1 * h128;
    if (raw.len() as u128) < expected {
        let got = u64_to_string(raw.len() as u64);
        let want = u128_to_string(expected);
        let m1 = concat_str("png: image data too short (", got.as_str());
        let m2 = concat_str(m1.as_str(), " < ");
        let m3 = concat_str(m2.as_str(), want.as_str());
        return Err(concat_str(m3.as_str(), ")"));
    }
    let out = decode_image_rows(&raw, w, h, bpp, info.color, &info.palette, &info.trns)?;
    Ok((w, h, out))
}

/// Decode a PNG into `(width, height, rgba8)`.
///
/// Supports non-interlaced 8-bit gray, gray+alpha, RGB, RGBA and palette
/// images.
pub fn decode_rgba8(bytes: &[u8]) -> (res: Result<(u32, u32, Vec<u8>), String>)
    ensures
        res is Ok <==> decode_spec(bytes@) is Some,
        res matches Ok(t) ==> decode_spec(bytes@) == Some((t.0, t.1, t.2@)),
        (bytes@.len() < 8 || bytes@.take(8) != png_signature()) ==> err_msg(res) == Some(
            "png: bad signature"@,
        ),
        res matches Err(e) ==> e@ == decode_err(bytes@),
{
    if bytes.len() < 8 || !(tag_is(bytes, 0, 0x89, 0x50, 0x4E, 0x47) && tag_is(
        bytes,
        4,
        0x0D,
        0x0A,
        0x1A,
        0x0A,
    )) {
        proof {
            if bytes@.len() >= 8 && bytes@.take(8) == png_signature() {
                assert(bytes@.subrange(0, 4) =~= seq![0x89u8, 0x50, 0x4E, 0x47]);
                assert(bytes@.subrange(4, 8) =~= seq![0x0Du8, 0x0A, 0x1A, 0x0A]);
            }
        }
        return Err("png: bad signature".to_owned());
    }
    assert(bytes@.take(8) =~= png_signature());
    let info = walk_chunks(bytes)?;
    decode_from_facts(info)
}

} // verus!
