use crate::checksum::{adler32, adler32_spec};
use crate::deflate::{deflate_fixed, expand, fixed_block_bytes, lz_tokens, tokens_valid, Token};
use crate::deflate_laws::law_zlib_roundtrip;
use crate::png::zlib_decode_spec;
use vstd::prelude::*;

verus! {

/// Big-endian bytes of a 32-bit value.
pub open spec fn be32(x: u32) -> Seq<u8> {
    seq![(x >> 24) as u8, (x >> 16) as u8, (x >> 8) as u8, x as u8]
}

/// Little-endian bytes of a 16-bit value.
pub open spec fn le16(x: u16) -> Seq<u8> {
    seq![x as u8, (x >> 8) as u8]
}

pub fn push_be32(out: &mut Vec<u8>, x: u32)
    ensures
        final(out)@ == old(out)@ + be32(x),
{
    out.push((x >> 24) as u8);
    out.push((x >> 16) as u8);
    out.push((x >> 8) as u8);
    out.push(x as u8);
    assert(out@ =~= old(out)@ + be32(x));
}

pub fn push_slice(out: &mut Vec<u8>, data: &[u8])
    ensures
        final(out)@ == old(out)@ + data@,
{
    let mut i: usize = 0;
    while i < data.len()
        invariant
            i <= data@.len(),
            out@ == old(out)@ + data@.take(i as int),
        decreases data@.len() - i,
    {
        out.push(data[i]);
        i = i + 1;
        assert(out@ =~= old(out)@ + data@.take(i as int));
    }
    assert(data@.take(data@.len() as int) =~= data@);
}

/// Stored (uncompressed) DEFLATE blocks for `data[pos..]`, at most 65535
/// bytes each, the last one flagged final.
pub open spec fn stored_blocks_from(data: Seq<u8>, pos: int) -> Seq<u8>
    decreases data.len() - pos,
{
    if pos < 0 || pos > data.len() {
        Seq::empty()
    } else {
        let n: int = if data.len() - pos < 65535 {
            data.len() - pos
        } else {
            65535
        };
        let last = pos + n == data.len();
        let block = seq![if last {
            1u8
        } else {
            0u8
        }] + le16(n as u16) + le16(!(n as u16)) + data.subrange(pos, pos + n);
        if last {
            block
        } else {
            block + stored_blocks_from(data, pos + n)
        }
    }
}

/// The stored-block body the encoder falls back to for incompressible
/// input (an empty input gets a second, empty final block).
pub open spec fn stored_blocks(data: Seq<u8>) -> Seq<u8> {
    stored_blocks_from(data, 0) + if data.len() == 0 {
        seq![1u8, 0, 0, 0xFF, 0xFF]
    } else {
        Seq::empty()
    }
}

/// The size below which the fixed-Huffman block is kept.
pub open spec fn stored_threshold(len: int) -> int {
    len + 5 * (len / 65535 + 1)
}

/// The zlib stream the encoder emits for `data` when its compressor
/// chose the tokens `ts`.
pub open spec fn zlib_stream(data: Seq<u8>, ts: Seq<Token>) -> Seq<u8> {
    let compressed = fixed_block_bytes(ts);
    seq![0x78u8, 0x01] + (if compressed.len() < stored_threshold(data.len() as int) {
        compressed
    } else {
        stored_blocks(data)
    }) + be32(adler32_spec(data) as u32)
}

fn stored_body(data: &[u8], out: &mut Vec<u8>)
    ensures
        final(out)@ == old(out)@ + stored_blocks(data@),
{
    let n_all = data.len();
    let mut pos: usize = 0;
    loop
        invariant_except_break
            pos < n_all || (pos == 0 && n_all == 0),
            n_all == data@.len(),
            out@ + stored_blocks_from(data@, pos as int) == old(out)@ + stored_blocks_from(
                data@,
                0,
            ),
        ensures
            out@ == old(out)@ + stored_blocks_from(data@, 0),
        decreases n_all - pos,
    {
        let n: usize = if n_all - pos < 65535 {
            n_all - pos
        } else {
            65535
        };
        let last = pos + n == n_all;
        let ghost before = out@;
        out.push(if last {
            1
        } else {
            0
        });
        let nn = n as u16;
        out.push(nn as u8);
        out.push((nn >> 8) as u8);
        let inv = !nn;
        out.push(inv as u8);
        out.push((inv >> 8) as u8);
        push_slice(out, &data[pos..pos + n]);
        let ghost block = seq![if last {
            1u8
        } else {
            0u8
        }] + le16(n as u16) + le16(!(n as u16)) + data@.subrange(pos as int, pos + n);
        assert(out@ =~= before + block);
        if last {
            assert(stored_blocks_from(data@, pos as int) == block);
            break ;
        }
        assert(stored_blocks_from(data@, pos as int) == block + stored_blocks_from(
            data@,
            pos + n,
        ));
        pos = pos + n;
        assert(out@ + stored_blocks_from(data@, pos as int) =~= before + stored_blocks_from(
            data@,
            (pos - n) as int,
        ));
    }
    if data.len() == 0 {
        out.push(1);
        out.push(0);
        out.push(0);
        out.push(0xFF);
        out.push(0xFF);
    }
    assert(out@ =~= old(out)@ + stored_blocks(data@));
}

/// zlib-wrap `data`: a fixed-Huffman block, or stored blocks when that
/// does not come out smaller, then the Adler-32 trailer.
pub fn zlib_encode(data: &[u8]) -> (res: (Vec<u8>, Ghost<Seq<Token>>))
    ensures
        tokens_valid(res.1@),
        expand(res.1@) == data@,
        res.0@ == zlib_stream(data@, res.1@),
        res.1@ == lz_tokens(data@),
        zlib_decode_spec(res.0@) == Some(data@),
{
    let mut out: Vec<u8> = Vec::new();
    out.push(0x78);
    out.push(0x01);
    let (compressed, toks) = deflate_fixed(data);
    let len = data.len() as u128;
    let bound: u128 = len + 5 * (len / 65535 + 1);
    if (compressed.len() as u128) < bound {
        push_slice(&mut out, compressed.as_slice());
    } else {
        stored_body(data, &mut out);
    }
    push_be32(&mut out, adler32(data));
    proof {
        assert(out@ =~= zlib_stream(data@, toks@));
        law_zlib_roundtrip(data@, toks@);
    }
    (out, toks)
}

} // verus!
