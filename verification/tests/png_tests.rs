use studio::bitio::BitReader;
use studio::inflate::inflate;
use studio::checksum::{adler32, crc32};
use studio::png::{encode_rgba8, zlib_decode};
use studio::png_decode::{decode_rgba8, paeth};
use studio::zlib::zlib_encode;

const SIG: [u8; 8] = [0x89, b'P', b'N', b'G', 0x0D, 0x0A, 0x1A, 0x0A];

fn mixed_rgba(w: u32, h: u32) -> Vec<u8> {
    // Mixed content: solid run + noise to exercise LZ77 and literals.
    let mut rgba = vec![0u8; (w * h * 4) as usize];
    let mut s = 0x1234_5678u64;
    for (i, px) in rgba.chunks_exact_mut(4).enumerate() {
        s ^= s << 13;
        s ^= s >> 7;
        s ^= s << 17;
        let v = if i < 200 { 128 } else { s as u8 };
        px[0] = v;
        px[1] = 255u8.wrapping_sub(v);
        px[2] = (i % 256) as u8;
        px[3] = 255;
    }
    rgba
}

const HELLO_ZLIB: [u8; 16] = [
    0x78, 0x9c, 0xcb, 0x48, 0xcd, 0xc9, 0xc9, 0x57, 0xc8, 0x40, 0x27, 0x01, 0x68, 0x03, 0x08, 0xb1,
];

#[test]
fn png_encode_decode_roundtrip() {
    let (w, h) = (64u32, 32u32);
    let rgba = mixed_rgba(w, h);
    let png = encode_rgba8(w, h, &rgba);
    assert_eq!(&png[..8], &SIG);
    let (dw, dh, dec) = decode_rgba8(&png).expect("decode");
    assert_eq!((dw, dh), (w, h));
    assert_eq!(dec, rgba);
}

#[test]
fn png_decode_dynamic_huffman_zlib() {
    // zlib stream with a dynamic Huffman block over "hello hello hello hello".
    let out = zlib_decode(&HELLO_ZLIB).expect("inflate");
    assert_eq!(out, b"hello hello hello hello");
}

#[test]
fn png_rejects_garbage() {
    assert!(decode_rgba8(b"not a png").is_err());
    assert!(zlib_decode(&[0x78, 0x9c, 0x00]).is_err());
}

#[test]
fn png_tests_encode_decode_roundtrip() {
    let (w, h) = (64u32, 32u32);
    let rgba = mixed_rgba(w, h);
    let png = encode_rgba8(w, h, &rgba);
    assert_eq!(&png[..8], &SIG);
    let (dw, dh, dec) = decode_rgba8(&png).expect("decode");
    assert_eq!((dw, dh), (w, h));
    assert_eq!(dec, rgba);
}

#[test]
fn png_tests_decode_dynamic_huffman_zlib() {
    let out = zlib_decode(&HELLO_ZLIB).expect("inflate");
    assert_eq!(out, b"hello hello hello hello");
}

#[test]
fn png_tests_rejects_garbage() {
    assert!(decode_rgba8(b"not a png").is_err());
    assert!(zlib_decode(&[0x78, 0x9c, 0x00]).is_err());
}

#[test]
fn crc32_check_value() {
    assert_eq!(crc32(b"123456789"), 0xCBF4_3926);
    assert_eq!(crc32(b""), 0);
}

#[test]
fn adler32_check_value() {
    assert_eq!(adler32(b"Wikipedia"), 0x11E6_0398);
    assert_eq!(adler32(b""), 1);
}

#[test]
fn paeth_picks_nearest() {
    assert_eq!(paeth(10, 20, 10), 20);
    assert_eq!(paeth(20, 10, 10), 20);
    assert_eq!(paeth(0, 0, 0), 0);
    assert_eq!(paeth(100, 50, 200), 50);
}

#[test]
fn zlib_roundtrip_through_own_decoder() {
    for data in [
        Vec::new(),
        b"a".to_vec(),
        b"abcabcabcabcabcabcabc".to_vec(),
        (0..5000u32).map(|i| (i * 7 % 251) as u8).collect::<Vec<u8>>(),
        vec![0u8; 70000],
    ] {
        let (z, _) = zlib_encode(&data);
        assert_eq!(zlib_decode(&z).expect("inflate"), data);
    }
}

#[test]
fn zlib_bad_header_messages() {
    let e = zlib_decode(&[0x78]).unwrap_err();
    assert!(e.starts_with("zlib"), "{e}");
    assert!(zlib_decode(&[0x79, 0x9c, 0x03, 0x00, 0, 0, 0, 1]).is_err());
}

#[test]
fn decode_rejects_truncated_png() {
    let png = encode_rgba8(2, 2, &[7u8; 16]);
    for cut in [8usize, 20, 33, 40] {
        assert!(decode_rgba8(&png[..cut]).is_err(), "cut {cut}");
    }
    assert_eq!(decode_rgba8(b"\x89PNG\r\n\x1a").unwrap_err(), "png: bad signature");
}

#[test]
fn zlib_stored_fallback_roundtrip() {
    let mut x: u32 = 12345;
    let data: Vec<u8> = (0..140000)
        .map(|_| {
            x = x.wrapping_mul(1103515245).wrapping_add(12345);
            (x >> 16) as u8
        })
        .collect();
    let (z, _) = zlib_encode(&data);
    assert_eq!(z[2] & 0x06, 0, "stored block expected");
    assert_eq!(zlib_decode(&z).expect("inflate"), data);
}

#[test]
fn inflate_error_messages() {
    let d = [0x01u8, 0x01, 0x00, 0xFE, 0xFF, 0x41];
    let mut out = Vec::new();
    assert!(inflate(&mut BitReader::new(&d), &mut out).is_ok());
    assert_eq!(out, vec![0x41]);
    let bad = [0x01u8, 0x01, 0x00, 0xFD, 0xFF, 0x41];
    let mut out = Vec::new();
    assert_eq!(inflate(&mut BitReader::new(&bad), &mut out).unwrap_err(), "deflate: bad stored length");
    let mut out = Vec::new();
    assert_eq!(inflate(&mut BitReader::new(&[0x07u8]), &mut out).unwrap_err(), "deflate: reserved block type");
    let mut out = Vec::new();
    assert_eq!(inflate(&mut BitReader::new(&[]), &mut out).unwrap_err(), "deflate: unexpected end of input");
}

#[test]
fn zlib_adler_mismatch_message() {
    let (mut z, _) = zlib_encode(b"hello");
    let n = z.len();
    z[n - 1] ^= 1;
    assert_eq!(zlib_decode(&z).unwrap_err(), "zlib: adler32 mismatch");
}

#[test]
fn crc32_matches_bitwise_definition() {
    let data = b"The quick brown fox";
    let mut c: u32 = 0xFFFF_FFFF;
    for &b in data.iter() {
        c ^= b as u32;
        for _ in 0..8 {
            c = if c & 1 == 1 { 0xEDB8_8320 ^ (c >> 1) } else { c >> 1 };
        }
    }
    assert_eq!(crc32(data), c ^ 0xFFFF_FFFF);
}

#[test]
fn decode_error_messages_name_values() {
    let mut png = encode_rgba8(1, 1, &[1, 2, 3, 4]);
    // corrupt the IHDR data: its CRC no longer matches
    png[16] ^= 0xFF;
    assert_eq!(decode_rgba8(&png).unwrap_err(), "png: CRC mismatch in IHDR");
}

struct FlipRng(u64);
impl FlipRng {
    fn next(&mut self) -> u64 {
        let mut x = self.0;
        x ^= x >> 12;
        x ^= x << 25;
        x ^= x >> 27;
        self.0 = x;
        x.wrapping_mul(0x2545_F491_4F6C_DD1D)
    }
    fn range(&mut self, lo: u64, hi: u64) -> u64 {
        lo + self.next() % (hi - lo + 1)
    }
}

#[test]
fn decoder_never_panics_on_malformed_input() {
    let png = encode_rgba8(4, 4, &[7u8; 64]);
    for len in 0..png.len() {
        let _ = decode_rgba8(&png[..len]);
    }
    let mut rng = FlipRng(0x9E3779B97F4A7C15);
    for _ in 0..512 {
        let mut m = png.clone();
        for _ in 0..rng.range(1, 4) {
            let i = rng.range(0, (m.len() - 1) as u64) as usize;
            m[i] ^= ((rng.next() & 0xFF) as u8) | 1;
        }
        let _ = decode_rgba8(&m);
    }
    for len in 0..64usize {
        let mut g = vec![0u8; len];
        for b in g.iter_mut() {
            *b = (rng.next() & 0xFF) as u8;
        }
        let _ = decode_rgba8(&g);
    }
    let mut huge = png.clone();
    huge[16..20].copy_from_slice(&u32::MAX.to_be_bytes());
    huge[20..24].copy_from_slice(&u32::MAX.to_be_bytes());
    let _ = decode_rgba8(&huge);
}
