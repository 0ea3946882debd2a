use crate::bitio::{BitWriter, lsb_bits, msb_bits, pack_bits};
use vstd::arithmetic::power2::*;
use vstd::prelude::*;

verus! {

/// Base lengths of the length symbols 257..=285 (RFC 1951 §3.2.5).
pub open spec fn len_base_table() -> Seq<u16> {
    seq![
        3u16, 4, 5, 6, 7, 8, 9, 10, 11, 13, 15, 17, 19, 23, 27, 31, 35, 43, 51, 59, 67, 83, 99,
        115, 131, 163, 195, 227, 258,
    ]
}

/// Extra bits of the length symbols 257..=285.
pub open spec fn len_extra_table() -> Seq<u8> {
    seq![0u8, 0, 0, 0, 0, 0, 0, 0, 1, 1, 1, 1, 2, 2, 2, 2, 3, 3, 3, 3, 4, 4, 4, 4, 5, 5, 5, 5, 0]
}

/// Base distances of the distance symbols 0..=29.
pub open spec fn dist_base_table() -> Seq<u16> {
    seq![
        1u16, 2, 3, 4, 5, 7, 9, 13, 17, 25, 33, 49, 65, 97, 129, 193, 257, 385, 513, 769, 1025,
        1537, 2049, 3073, 4097, 6145, 8193, 12289, 16385, 24577,
    ]
}

/// Extra bits of the distance symbols 0..=29.
pub open spec fn dist_extra_table() -> Seq<u8> {
    seq![
        0u8, 0, 0, 0, 1, 1, 2, 2, 3, 3, 4, 4, 5, 5, 6, 6, 7, 7, 8, 8, 9, 9, 10, 10, 11, 11, 12,
        12, 13, 13,
    ]
}

pub fn len_base(i: usize) -> (r: u16)
    requires
        i < 29,
    ensures
        r == len_base_table()[i as int],
        r <= 258,
{
    let t: [u16; 29] = [
        3, 4, 5, 6, 7, 8, 9, 10, 11, 13, 15, 17, 19, 23, 27, 31, 35, 43, 51, 59, 67, 83, 99, 115,
        131, 163, 195, 227, 258,
    ];
    assert(t@ =~= len_base_table());
    t[i]
}

pub fn len_extra(i: usize) -> (r: u8)
    requires
        i < 29,
    ensures
        r == len_extra_table()[i as int],
        r <= 5,
{
    let t: [u8; 29] = [
        0, 0, 0, 0, 0, 0, 0, 0, 1, 1, 1, 1, 2, 2, 2, 2, 3, 3, 3, 3, 4, 4, 4, 4, 5, 5, 5, 5, 0,
    ];
    assert(t@ =~= len_extra_table());
    t[i]
}

pub fn dist_base(i: usize) -> (r: u16)
    requires
        i < 30,
    ensures
        r == dist_base_table()[i as int],
        r <= 24577,
{
    let t: [u16; 30] = [
        1, 2, 3, 4, 5, 7, 9, 13, 17, 25, 33, 49, 65, 97, 129, 193, 257, 385, 513, 769, 1025, 1537,
        2049, 3073, 4097, 6145, 8193, 12289, 16385, 24577,
    ];
    assert(t@ =~= dist_base_table());
    t[i]
}

pub fn dist_extra(i: usize) -> (r: u8)
    requires
        i < 30,
    ensures
        r == dist_extra_table()[i as int],
        r <= 13,
{
    let t: [u8; 30] = [
        0, 0, 0, 0, 1, 1, 2, 2, 3, 3, 4, 4, 5, 5, 6, 6, 7, 7, 8, 8, 9, 9, 10, 10, 11, 11, 12, 12,
        13, 13,
    ];
    assert(t@ =~= dist_extra_table());
    t[i]
}

/// The fixed literal/length Huffman code of `sym` as `(code, length)`
/// (RFC 1951 §3.2.6).
pub open spec fn fixed_lit_code_spec(sym: u16) -> (u32, u32) {
    if sym <= 143 {
        ((0x30 + sym) as u32, 8)
    } else if sym <= 255 {
        ((0x190 + (sym - 144)) as u32, 9)
    } else if sym <= 279 {
        ((sym - 256) as u32, 7)
    } else {
        ((0xC0 + (sym - 280)) as u32, 8)
    }
}

/// Fixed literal/length code for `sym` per RFC 1951 §3.2.6.
pub fn fixed_lit_code(sym: u16) -> (r: (u32, u32))
    ensures
        r == fixed_lit_code_spec(sym),
{
    if sym <= 143 {
        (0x30 + sym as u32, 8)
    } else if sym <= 255 {
        (0x190 + (sym as u32 - 144), 9)
    } else if sym <= 279 {
        (sym as u32 - 256, 7)
    } else {
        (0xC0 + (sym as u32 - 280), 8)
    }
}

/// The length-table index chosen for a match length: the largest index
/// at most `i` whose base does not exceed `len`.
pub open spec fn len_index_from(len: int, i: int) -> int
    decreases i,
{
    if i <= 0 || len_base_table()[i] as int <= len {
        i
    } else {
        len_index_from(len, i - 1)
    }
}

/// The length-table index the encoder uses for `len` (index 28, the
/// dedicated symbol for 258, is never chosen: 258 is sent as symbol 284
/// with extra value 31).
pub open spec fn len_index(len: int) -> int {
    len_index_from(len, 27)
}

/// The distance-table index for `dist`.
pub open spec fn dist_index_from(dist: int, i: int) -> int
    decreases i,
{
    if i <= 0 || dist_base_table()[i] as int <= dist {
        i
    } else {
        dist_index_from(dist, i - 1)
    }
}

pub open spec fn dist_index(dist: int) -> int {
    dist_index_from(dist, 29)
}

pub proof fn lemma_len_index_from(len: int, i: int)
    requires
        3 <= len <= 258,
        0 <= i <= 27,
    ensures
        0 <= len_index_from(len, i) <= i,
        len_base_table()[len_index_from(len, i)] as int <= len,
    decreases i,
{
    if i > 0 && len_base_table()[i] as int > len {
        lemma_len_index_from(len, i - 1);
    }
}

/// If every base in `(j, i]` exceeds `len` and base `j` does not, the
/// choice starting from `i` is `j`.
proof fn lemma_len_index_is(len: int, i: int, j: int)
    requires
        0 <= j <= i <= 27,
        len_base_table()[j] as int <= len,
        forall|k: int| j < k <= i ==> #[trigger] len_base_table()[k] as int > len,
    ensures
        len_index_from(len, i) == j,
    decreases i,
{
    if i > j {
        lemma_len_index_is(len, i - 1, j);
    }
}

proof fn lemma_dist_index_is(dist: int, i: int, j: int)
    requires
        0 <= j <= i <= 29,
        dist_base_table()[j] as int <= dist,
        forall|k: int| j < k <= i ==> #[trigger] dist_base_table()[k] as int > dist,
    ensures
        dist_index_from(dist, i) == j,
    decreases i,
{
    if i > j {
        lemma_dist_index_is(dist, i - 1, j);
    }
}

pub proof fn lemma_dist_index_from(dist: int, i: int)
    requires
        1 <= dist <= 32768,
        0 <= i <= 29,
    ensures
        0 <= dist_index_from(dist, i) <= i,
        dist_base_table()[dist_index_from(dist, i)] as int <= dist,
    decreases i,
{
    if i > 0 && dist_base_table()[i] as int > dist {
        lemma_dist_index_from(dist, i - 1);
    }
}

/// Length symbol, extra value and extra-bit count for a match length.
pub fn len_sym(len: usize) -> (r: (u16, u32, u32))
    requires
        3 <= len <= 258,
    ensures
        r.0 == 257 + len_index(len as int),
        r.1 == len - len_base_table()[len_index(len as int)],
        r.2 == len_extra_table()[len_index(len as int)],
{
    let mut i: usize = 29;
    while i > 0
        invariant
            i <= 29,
            3 <= len <= 258,
            forall|j: int| i <= j <= 27 ==> #[trigger] len_base_table()[j] as int > len,
        decreases i,
    {
        i = i - 1;
        let base = len_base(i);
        if len >= base as usize && !(i == 28 && len == 258) {
            proof {
                if i == 28 {
                    assert(len_base_table()[28] == 258);
                }
                lemma_len_index_is(len as int, 27, i as int);
            }
            return (257 + i as u16, (len - base as usize) as u32, len_extra(i) as u32);
        }
    }
    assert(len_base_table()[0] == 3);
    assert(false);
    (285, 0, 0)
}

/// Distance symbol, extra value and extra-bit count for a match distance.
pub fn dist_sym(dist: usize) -> (r: (u16, u32, u32))
    requires
        1 <= dist <= 32768,
    ensures
        r.0 == dist_index(dist as int),
        r.1 == dist - dist_base_table()[dist_index(dist as int)],
        r.2 == dist_extra_table()[dist_index(dist as int)],
{
    let mut i: usize = 30;
    while i > 0
        invariant
            i <= 30,
            1 <= dist <= 32768,
            forall|j: int| i <= j < 30 ==> #[trigger] dist_base_table()[j] as int > dist,
        decreases i,
    {
        i = i - 1;
        let base = dist_base(i);
        if dist >= base as usize {
            proof {
                lemma_dist_index_is(dist as int, 29, i as int);
            }
            return (i as u16, (dist - base as usize) as u32, dist_extra(i) as u32);
        }
    }
    assert(dist_base_table()[0] == 1);
    assert(false);
    (0, 0, 0)
}

/// An LZ77 token: a literal byte, or a copy of `len` bytes starting
/// `dist` bytes back.
pub enum Token {
    Lit(u8),
    Copy(u16, u16),
}

/// The output after appending `len` bytes copied from `dist` back, one
/// byte at a time (so copies may overlap the bytes they produce).
pub open spec fn lz_copy(out: Seq<u8>, len: nat, dist: int) -> Seq<u8>
    decreases len,
{
    if len == 0 {
        out
    } else {
        let o = lz_copy(out, (len - 1) as nat, dist);
        o.push(o[o.len() - dist])
    }
}

pub open spec fn apply_token(out: Seq<u8>, t: Token) -> Seq<u8> {
    match t {
        Token::Lit(b) => out.push(b),
        Token::Copy(len, dist) => lz_copy(out, len as nat, dist as int),
    }
}

/// The bytes a token sequence stands for.
pub open spec fn expand(ts: Seq<Token>) -> Seq<u8>
    decreases ts.len(),
{
    if ts.len() == 0 {
        Seq::empty()
    } else {
        apply_token(expand(ts.drop_last()), ts.last())
    }
}

/// Every copy refers back inside the output produced before it and
/// stays within DEFLATE's limits.
pub open spec fn tokens_valid(ts: Seq<Token>) -> bool
    decreases ts.len(),
{
    if ts.len() == 0 {
        true
    } else {
        tokens_valid(ts.drop_last()) && match ts.last() {
            Token::Lit(_) => true,
            Token::Copy(len, dist) => 3 <= len <= 258 && 1 <= dist <= 32768 && dist <= expand(
                ts.drop_last(),
            ).len(),
        }
    }
}

/// The fixed-Huffman bits of one token.
pub open spec fn token_bits(t: Token) -> Seq<bool> {
    match t {
        Token::Lit(b) => {
            let (c, n) = fixed_lit_code_spec(b as u16);
            msb_bits(c as int, n as nat)
        },
        Token::Copy(len, dist) => {
            let li = len_index(len as int);
            let (c, n) = fixed_lit_code_spec((257 + li) as u16);
            let di = dist_index(dist as int);
            msb_bits(c as int, n as nat) + lsb_bits(
                len - len_base_table()[li],
                len_extra_table()[li] as nat,
            ) + msb_bits(di, 5) + lsb_bits(
                dist - dist_base_table()[di],
                dist_extra_table()[di] as nat,
            )
        },
    }
}

pub open spec fn tokens_bits(ts: Seq<Token>) -> Seq<bool>
    decreases ts.len(),
{
    if ts.len() == 0 {
        Seq::empty()
    } else {
        tokens_bits(ts.drop_last()) + token_bits(ts.last())
    }
}

/// The block header of a single final fixed-Huffman block.
pub open spec fn fixed_block_header() -> Seq<bool> {
    lsb_bits(1, 1) + lsb_bits(1, 2)
}

/// The end-of-block code.
pub open spec fn end_of_block_bits() -> Seq<bool> {
    let (c, n) = fixed_lit_code_spec(256);
    msb_bits(c as int, n as nat)
}

/// The DEFLATE stream of a single final fixed-Huffman block holding `ts`.
pub open spec fn fixed_block_bytes(ts: Seq<Token>) -> Seq<u8> {
    pack_bits(fixed_block_header() + tokens_bits(ts) + end_of_block_bits())
}

/// Equal bytes at `i - d + k` and `i + k` for `k < l` make the copy
/// reproduce `data[i..i + l]`.
proof fn lemma_lz_copy_match(data: Seq<u8>, i: int, l: nat, d: int)
    requires
        1 <= d <= i,
        i + l <= data.len(),
        forall|k: int| 0 <= k < l ==> data[i - d + k] == #[trigger] data[i + k],
    ensures
        lz_copy(data.take(i), l, d) == data.take(i + l),
    decreases l,
{
    if l > 0 {
        lemma_lz_copy_match(data, i, (l - 1) as nat, d);
        let o = data.take(i + l - 1);
        assert(o[o.len() - d] == data[i - d + l - 1]);
        assert(data.take(i + l) =~= o.push(data[i + l - 1]));
    }
}

/// The hash-table slot of the three bytes at `i`.
pub open spec fn hash3_spec(data: Seq<u8>, i: int) -> usize {
    (((data[i] as usize) << 10usize) ^ ((data[i + 1] as usize) << 5usize) ^ (data[i + 2] as usize))
        & 32767usize
}

/// The length of the common run of `data[c..]` and `data[i..]`, counted
/// from `l` and capped at `max`.
pub open spec fn run_len(data: Seq<u8>, c: int, i: int, l: int, max: int) -> int
    decreases max - l,
{
    if l < max && data[c + l] == data[i + l] {
        run_len(data, c, i, l + 1, max)
    } else {
        l
    }
}

/// The longest match length allowed at `i`.
pub open spec fn match_cap(n: int, i: int) -> int {
    if n - i < 258 {
        n - i
    } else {
        258
    }
}

/// The match the compressor takes at `i` with the table `head`:
/// `(length, distance)`, or `(0, 0)` for none.
pub open spec fn match_at(data: Seq<u8>, head: Seq<i32>, i: int) -> (int, int) {
    let n = data.len() as int;
    if n - i >= 3 {
        let cand = head[hash3_spec(data, i) as int] as int;
        if cand >= 0 && cand < i && i - cand <= 32768 {
            let l = run_len(data, cand, i, 0, match_cap(n, i));
            if l >= 3 {
                (l, i - cand)
            } else {
                (0, 0)
            }
        } else {
            (0, 0)
        }
    } else {
        (0, 0)
    }
}

/// The table after recording position `i`.
pub open spec fn record(data: Seq<u8>, head: Seq<i32>, i: int) -> Seq<i32> {
    if data.len() - i >= 3 {
        head.update(hash3_spec(data, i) as int, i as i32)
    } else {
        head
    }
}

/// The table after recording positions `from..to`.
pub open spec fn record_range(data: Seq<u8>, head: Seq<i32>, from: int, to: int) -> Seq<i32>
    decreases to - from,
{
    if from >= to {
        head
    } else {
        record_range(data, record(data, head, from), from + 1, to)
    }
}

/// The tokens of the greedy parse of `data` from `i` with the table
/// `head`: at each position the match the table offers when it is at
/// least three bytes long, else a literal.
pub open spec fn greedy(data: Seq<u8>, i: int, head: Seq<i32>) -> Seq<Token>
    decreases data.len() - i,
{
    if i < 0 || i >= data.len() {
        Seq::empty()
    } else {
        let (l, d) = match_at(data, head, i);
        let h1 = record(data, head, i);
        if l >= 3 && i + l <= data.len() {
            seq![Token::Copy(l as u16, d as u16)] + greedy(
                data,
                i + l,
                record_range(data, h1, i + 1, i + l),
            )
        } else {
            seq![Token::Lit(data[i])] + greedy(data, i + 1, h1)
        }
    }
}

/// The empty hash table.
pub open spec fn empty_head() -> Seq<i32> {
    Seq::new(32768, |k: int| -1i32)
}

/// The tokens the compressor chooses for `data`.
pub open spec fn lz_tokens(data: Seq<u8>) -> Seq<Token> {
    greedy(data, 0, empty_head())
}

fn hash3(data: &[u8], i: usize) -> (h: usize)
    requires
        i + 3 <= data@.len(),
    ensures
        h < 32768,
        h == hash3_spec(data@, i as int),
{
    let a = data[i] as usize;
    let b = data[i + 1] as usize;
    let c = data[i + 2] as usize;
    let h = ((a << 10) ^ (b << 5) ^ c) & 32767;
    assert(h < 32768) by (bit_vector)
        requires
            h == ((a << 10) ^ (b << 5) ^ c) & 32767,
    ;
    h
}

/// Emit the fixed-Huffman code of a copy token.
fn emit_copy(w: &mut BitWriter, len: usize, dist: usize)
    requires
        old(w).inv(),
        3 <= len <= 258,
        1 <= dist <= 32768,
    ensures
        final(w).inv(),
        final(w).written() == old(w).written() + token_bits(Token::Copy(len as u16, dist as u16)),
{
    let (sym, extra, ebits) = len_sym(len);
    proof {
        lemma_len_index_from(len as int, 27);
    }
    let (code, clen) = fixed_lit_code(sym);
    w.huff(code, clen);
    if ebits > 0 {
        w.bits(extra, ebits);
    } else {
        assert(lsb_bits(extra as int, ebits as nat) =~= Seq::<bool>::empty());
    }
    let (dsym, dextra, debits) = dist_sym(dist);
    proof {
        lemma_dist_index_from(dist as int, 29);
    }
    w.huff(dsym as u32, 5);
    if debits > 0 {
        w.bits(dextra, debits);
    } else {
        assert(lsb_bits(dextra as int, debits as nat) =~= Seq::<bool>::empty());
    }
    proof {
        let t = Token::Copy(len as u16, dist as u16);
        assert(token_bits(t) == msb_bits(code as int, clen as nat) + lsb_bits(
            extra as int,
            ebits as nat,
        ) + msb_bits(dsym as int, 5) + lsb_bits(dextra as int, debits as nat));
    }
    assert(w.written() =~= old(w).written() + token_bits(Token::Copy(len as u16, dist as u16)));
}

/// Emit the fixed-Huffman code of a literal.
fn emit_literal(w: &mut BitWriter, b: u8)
    requires
        old(w).inv(),
    ensures
        final(w).inv(),
        final(w).written() == old(w).written() + token_bits(Token::Lit(b)),
{
    let (code, clen) = fixed_lit_code(b as u16);
    w.huff(code, clen);
}

/// Length of the common run of `data[c..]` and `data[i..]`, capped at 258
/// and at the end of the input.
fn match_length(data: &[u8], c: usize, i: usize) -> (l: usize)
    requires
        c < i < data@.len(),
    ensures
        l <= 258,
        i + l <= data@.len(),
        forall|k: int| 0 <= k < l ==> data@[c + k] == #[trigger] data@[i as int + k],
        l == run_len(data@, c as int, i as int, 0, match_cap(data@.len() as int, i as int)),
{
    let n = data.len();
    let max = if n - i < 258 {
        n - i
    } else {
        258
    };
    let mut l: usize = 0;
    while l < max && data[c + l] == data[i + l]
        invariant
            c < i,
            i + max <= n,
            max <= 258,
            n == data@.len(),
            l <= max,
            max == match_cap(n as int, i as int),
            forall|k: int| 0 <= k < l ==> data@[c + k] == #[trigger] data@[i as int + k],
            run_len(data@, c as int, i as int, l as int, max as int) == run_len(
                data@,
                c as int,
                i as int,
                0,
                max as int,
            ),
        decreases max - l,
    {
        l = l + 1;
    }
    l
}

/// The longest match offered by the hash chain head for position `i`
/// (length 0 when there is none of length three or more), with its
/// distance.
fn best_match(data: &[u8], head: &mut Vec<i32>, i: usize) -> (r: (usize, usize))
    requires
        i < data@.len(),
        old(head)@.len() == 32768,
    ensures
        final(head)@.len() == 32768,
        r.0 == 0 || (3 <= r.0 <= 258 && 1 <= r.1 <= 32768 && r.1 <= i && i + r.0 <= data@.len()
            && forall|k: int|
            0 <= k < r.0 ==> data@[i - r.1 + k] == #[trigger] data@[i as int + k]),
        (r.0 as int, r.1 as int) == match_at(data@, old(head)@, i as int),
        final(head)@ == record(data@, old(head)@, i as int),
{
    let n = data.len();
    if n - i >= 3 {
        let h = hash3(data, i);
        let cand = head[h];
        head.set(h, #[verifier::truncate] (i as i32));
        if cand >= 0 {
            let c = cand as usize;
            if c < i {
                let dist = i - c;
                if dist <= 32768 {
                    let l = match_length(data, c, i);
                    if l >= 3 {
                        return (l, dist);
                    }
                }
            }
        }
    }
    (0, 0)
}

/// Record positions `from..to` in the hash chain heads.
fn register_positions(data: &[u8], head: &mut Vec<i32>, from: usize, to: usize)
    requires
        from <= to <= data@.len(),
        old(head)@.len() == 32768,
    ensures
        final(head)@.len() == 32768,
        final(head)@ == record_range(data@, old(head)@, from as int, to as int),
{
    let n = data.len();
    let mut i = from;
    while i < to
        invariant
            to <= n,
            n == data@.len(),
            from <= i <= to,
            head@.len() == 32768,
            record_range(data@, head@, i as int, to as int) == record_range(
                data@,
                old(head)@,
                from as int,
                to as int,
            ),
        decreases to - i,
    {
        if n - i >= 3 {
            let h = hash3(data, i);
            head.set(h, #[verifier::truncate] (i as i32));
        }
        i = i + 1;
    }
}

/// DEFLATE one block with greedy LZ77 matching and fixed Huffman codes.
///
/// The returned tokens are the ones the block encodes.
pub fn deflate_fixed(data: &[u8]) -> (res: (Vec<u8>, Ghost<Seq<Token>>))
    ensures
        tokens_valid(res.1@),
        expand(res.1@) == data@,
        res.0@ == fixed_block_bytes(res.1@),
        res.1@ == lz_tokens(data@),
{
    let mut w = BitWriter::new();
    w.bits(1, 1);
    w.bits(1, 2);
    let mut head: Vec<i32> = vec![-1i32; 32768];
    assert(head@ =~= empty_head());
    let mut i: usize = 0;
    let ghost mut toks: Seq<Token> = Seq::empty();
    let n = data.len();
    assert(w.written() =~= fixed_block_header() + tokens_bits(toks));
    assert(toks + greedy(data@, 0, head@) =~= lz_tokens(data@));
    while i < n
        invariant
            n == data@.len(),
            i <= n,
            w.inv(),
            head@.len() == 32768,
            tokens_valid(toks),
            expand(toks) == data@.take(i as int),
            w.written() == fixed_block_header() + tokens_bits(toks),
            toks + greedy(data@, i as int, head@) == lz_tokens(data@),
        decreases n - i,
    {
        let ghost before = toks;
        let ghost h0 = head@;
        let (best_len, best_dist) = best_match(data, &mut head, i);
        let ghost h1 = head@;
        if best_len >= 3 {
            emit_copy(&mut w, best_len, best_dist);
            let ghost t = Token::Copy(best_len as u16, best_dist as u16);
            proof {
                lemma_lz_copy_match(data@, i as int, best_len as nat, best_dist as int);
                toks = toks.push(t);
                assert(toks.drop_last() =~= before);
                assert(w.written() =~= fixed_block_header() + tokens_bits(toks));
            }
            let end = i + best_len;
            register_positions(data, &mut head, i + 1, end);
            proof {
                assert(greedy(data@, i as int, h0) == seq![t] + greedy(data@, end as int, head@));
                assert(toks + greedy(data@, end as int, head@) =~= before + greedy(
                    data@,
                    i as int,
                    h0,
                ));
            }
            i = end;
        } else {
            emit_literal(&mut w, data[i]);
            let ghost t = Token::Lit(data@[i as int]);
            proof {
                toks = toks.push(t);
                assert(toks.drop_last() =~= before);
                assert(data@.take(i + 1) =~= data@.take(i as int).push(data@[i as int]));
                assert(w.written() =~= fixed_block_header() + tokens_bits(toks));
                assert(greedy(data@, i as int, h0) == seq![t] + greedy(data@, i + 1, h1));
                assert(toks + greedy(data@, i + 1, h1) =~= before + greedy(data@, i as int, h0));
            }
            i = i + 1;
        }
    }
    let (code, clen) = fixed_lit_code(256);
    w.huff(code, clen);
    assert(data@.take(n as int) =~= data@);
    assert(toks + greedy(data@, n as int, head@) =~= toks);
    (w.finish(), Ghost(toks))
}

} // verus!
