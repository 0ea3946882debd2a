use crate::bitio::{
    bits_value, bytes_to_bits, lemma_bits_value_bound, lemma_bits_value_lsb,
    lemma_bytes_to_bits_index, lemma_bytes_to_bits_len, lemma_lsb_bits_add_top,
    lemma_lsb_bits_len, lemma_msb_bits_index, lemma_msb_bits_len, lsb_bits, msb_bits, pack_bits,
};
use crate::deflate::{
    apply_token, end_of_block_bits, expand, fixed_block_bytes, fixed_block_header, lz_copy,
    token_bits, tokens_bits, tokens_valid, Token, dist_base_table, dist_extra_table, dist_index, dist_index_from, fixed_lit_code_spec,
    len_base_table, len_extra_table, len_index, len_index_from, lemma_dist_index_from,
    lemma_len_index_from,
};
use crate::inflate::{
    bv, canonical_symbols, codes_spec, count_len, match_spec, fixed_dist_lens, fixed_lit_lens, huff_decode, huff_step,
    huffman_spec, inflate_spec, stored_spec, stream_bytes, align_up, syms_of_len,
};
use crate::checksum::{adler32_spec, adler_sums, ADLER_MOD};
use crate::png::{be32_value, zlib_body, zlib_decode_spec, zlib_header_ok};
use crate::zlib::{be32, le16, stored_blocks, stored_blocks_from, stored_threshold, zlib_stream};
use vstd::arithmetic::power2::*;
use vstd::prelude::*;

verus! {

/// `n` zero bits.
pub open spec fn zeros(n: nat) -> Seq<bool> {
    Seq::new(n, |i: int| false)
}

/// The zero bits that fill the last byte of an `n`-bit stream.
pub open spec fn pad_len(n: nat) -> nat {
    ((8 - n % 8) % 8) as nat
}

/// A bit string is the low bits of its own value.
pub proof fn lemma_lsb_bits_of_value(bits: Seq<bool>)
    ensures
        lsb_bits(bits_value(bits) as int, bits.len()) == bits,
    decreases bits.len(),
{
    if bits.len() == 0 {
        assert(lsb_bits(bits_value(bits) as int, 0) =~= bits);
    } else {
        let d = bits.drop_last();
        lemma_lsb_bits_of_value(d);
        lemma_bits_value_bound(d);
        let t: int = if bits.last() {
            1
        } else {
            0
        };
        lemma_lsb_bits_add_top(bits_value(d) as int, d.len(), t);
        assert(bits_value(bits) as int == bits_value(d) as int + pow2(d.len()) * t);
        assert(d.push(bits.last()) =~= bits);
    }
}

/// The bits of a value below `2^n`, taken `n + j` wide, end in `j` zeros.
pub proof fn lemma_lsb_bits_pad(v: int, n: nat, j: nat)
    requires
        0 <= v < pow2(n),
    ensures
        lsb_bits(v, n + j) == lsb_bits(v, n) + zeros(j),
    decreases j,
{
    lemma_lsb_bits_len(v, n);
    if j == 0 {
        assert(lsb_bits(v, n) + zeros(0) =~= lsb_bits(v, n));
    } else {
        lemma_lsb_bits_pad(v, n, (j - 1) as nat);
        if j > 1 {
            lemma_pow2_strictly_increases(n, (n + j - 1) as nat);
        }
        lemma_lsb_bits_add_top(v, (n + j - 1) as nat, 0);
        assert(v + pow2((n + j - 1) as nat) * 0 == v);
        assert(lsb_bits(v, n) + zeros(j) =~= (lsb_bits(v, n) + zeros((j - 1) as nat)).push(false));
    }
}

/// The bits of a concatenation of byte strings.
pub proof fn lemma_bytes_to_bits_concat(a: Seq<u8>, b: Seq<u8>)
    ensures
        bytes_to_bits(a + b) == bytes_to_bits(a) + bytes_to_bits(b),
    decreases b.len(),
{
    if b.len() == 0 {
        assert(a + b =~= a);
        assert(bytes_to_bits(a) + bytes_to_bits(b) =~= bytes_to_bits(a));
    } else {
        lemma_bytes_to_bits_concat(a, b.drop_last());
        assert((a + b).drop_last() =~= a + b.drop_last());
        assert((a + b).last() == b.last());
        assert(bytes_to_bits(a + b) =~= bytes_to_bits(a) + bytes_to_bits(b));
    }
}

/// The bits of one byte.
pub proof fn lemma_bytes_to_bits_one(x: u8)
    ensures
        bytes_to_bits(seq![x]) == lsb_bits(x as int, 8),
{
    assert(seq![x].drop_last() =~= Seq::<u8>::empty());
    assert(bytes_to_bits(seq![x].drop_last()) =~= Seq::<bool>::empty());
    assert(seq![x].last() == x);
    lemma_lsb_bits_len(x as int, 8);
    assert(bytes_to_bits(seq![x]) =~= lsb_bits(x as int, 8));
}

/// Packing bits into bytes and reading them back gives the bits, padded
/// with zeros to a whole number of bytes.
pub proof fn lemma_pack_bits(bits: Seq<bool>)
    ensures
        bytes_to_bits(pack_bits(bits)) == bits + zeros(pad_len(bits.len())),
    decreases bits.len(),
{
    lemma2_to64();
    if bits.len() == 0 {
        assert(bits + zeros(0) =~= bits);
    } else if bits.len() <= 8 {
        let v = bits_value(bits);
        lemma_bits_value_bound(bits);
        assert(v < 256) by {
            if bits.len() < 8 {
                lemma_pow2_strictly_increases(bits.len(), 8);
            }
        }
        lemma_bytes_to_bits_one(v as u8);
        lemma_lsb_bits_pad(v as int, bits.len(), (8 - bits.len()) as nat);
        lemma_lsb_bits_of_value(bits);
        assert(pad_len(bits.len()) == 8 - bits.len());
    } else {
        let h = bits.take(8);
        let t = bits.skip(8);
        lemma_pack_bits(t);
        lemma_bits_value_bound(h);
        lemma_lsb_bits_of_value(h);
        let v = bits_value(h);
        lemma_bytes_to_bits_one(v as u8);
        lemma_bytes_to_bits_concat(seq![v as u8], pack_bits(t));
        assert(pad_len(bits.len()) == pad_len(t.len()));
        assert(bits =~= h + t);
        assert(bits + zeros(pad_len(bits.len())) =~= h + (t + zeros(pad_len(t.len()))));
    }
}

/// The value of a concatenation of bit strings.
pub proof fn lemma_bits_value_concat(a: Seq<bool>, b: Seq<bool>)
    ensures
        bits_value(a + b) == bits_value(a) + pow2(a.len()) * bits_value(b),
    decreases b.len(),
{
    if b.len() == 0 {
        assert(a + b =~= a);
    } else {
        let b1 = b.drop_last();
        lemma_bits_value_concat(a, b1);
        assert((a + b).drop_last() =~= a + b1);
        assert((a + b).last() == b.last());
        lemma_pow2_adds(a.len(), b1.len());
        let t: int = if b.last() {
            1
        } else {
            0
        };
        let pa = pow2(a.len()) as int;
        let pb = pow2(b1.len()) as int;
        assert(bits_value(b) as int == bits_value(b1) as int + pb * t);
        assert(bits_value(a + b) as int == bits_value(a + b1) as int + pa * pb * t);
        assert(pa * (bits_value(b1) as int + pb * t) == pa * bits_value(b1) as int + pa * pb * t)
            by (nonlinear_arith);
    }
}

/// Reading `n` bits that hold the low bits of `x < 2^n` gives `x`.
pub proof fn lemma_bv_lsb(s: Seq<bool>, p: int, n: nat, x: int)
    requires
        0 <= p,
        p + n <= s.len(),
        s.subrange(p, p + n) == lsb_bits(x, n),
        0 <= x < pow2(n),
    ensures
        bv(s, p, n as int) == x,
{
    lemma_bits_value_lsb(x, n);
}

/// The eight bits of byte `i` of a byte string.
pub proof fn lemma_bytes_bits_byte(bytes: Seq<u8>, i: int)
    requires
        0 <= i < bytes.len(),
    ensures
        bytes_to_bits(bytes).len() == 8 * bytes.len(),
        bytes_to_bits(bytes).subrange(8 * i, 8 * i + 8) == lsb_bits(bytes[i] as int, 8),
        bv(bytes_to_bits(bytes), 8 * i, 8) == bytes[i],
{
    lemma_bytes_to_bits_len(bytes);
    lemma_lsb_bits_len(bytes[i] as int, 8);
    let s = bytes_to_bits(bytes);
    assert forall|k: int| 0 <= k < 8 implies #[trigger] s.subrange(8 * i, 8 * i + 8)[k] == lsb_bits(
        bytes[i] as int,
        8,
    )[k] by {
        lemma_bytes_to_bits_index(bytes, i, k);
    }
    assert(s.subrange(8 * i, 8 * i + 8) =~= lsb_bits(bytes[i] as int, 8));
    lemma2_to64();
    lemma_bits_value_lsb(bytes[i] as int, 8);
}

/// Two bytes read as a little-endian 16-bit value.
pub proof fn lemma_bytes_bits_le16(bytes: Seq<u8>, i: int)
    requires
        0 <= i,
        i + 2 <= bytes.len(),
    ensures
        bv(bytes_to_bits(bytes), 8 * i, 16) == bytes[i] as int + 256 * bytes[i + 1] as int,
{
    lemma_bytes_bits_byte(bytes, i);
    lemma_bytes_bits_byte(bytes, i + 1);
    let s = bytes_to_bits(bytes);
    let x = s.subrange(8 * i, 8 * i + 8);
    let y = s.subrange(8 * i + 8, 8 * i + 16);
    assert(s.subrange(8 * i, 8 * i + 16) =~= x + y);
    lemma_bits_value_concat(x, y);
    lemma2_to64();
}

/// How many of the first `k` fixed literal/length symbols have code
/// length `l`.
pub open spec fn fixed_lit_count(l: int, k: int) -> int {
    if l == 7 {
        if k <= 256 {
            0
        } else if k <= 280 {
            k - 256
        } else {
            24
        }
    } else if l == 8 {
        if k <= 144 {
            k
        } else if k <= 280 {
            144
        } else {
            144 + k - 280
        }
    } else if l == 9 {
        if k <= 144 {
            0
        } else if k <= 256 {
            k - 144
        } else {
            112
        }
    } else {
        0
    }
}

/// The `i`-th fixed literal/length symbol with code length `l`.
pub open spec fn fixed_lit_sym(l: int, i: int) -> u16 {
    if l == 7 {
        (256 + i) as u16
    } else if l == 8 {
        if i < 144 {
            i as u16
        } else {
            (280 + i - 144) as u16
        }
    } else {
        (144 + i) as u16
    }
}

/// The fixed literal/length symbols in canonical order.
pub open spec fn fixed_lit_symbols() -> Seq<u16> {
    Seq::new(
        288,
        |i: int|
            if i < 24 {
                (256 + i) as u16
            } else if i < 168 {
                (i - 24) as u16
            } else if i < 176 {
                (280 + i - 168) as u16
            } else {
                (144 + i - 176) as u16
            },
    )
}

/// How many fixed literal/length codes have each length.
pub open spec fn fixed_lit_counts() -> Seq<u16> {
    Seq::new(16, |l: int| fixed_lit_count(l, 288) as u16)
}

/// The fixed literal/length decoding tables.
pub open spec fn fixed_lit_tables() -> (Seq<u16>, Seq<u16>) {
    (fixed_lit_counts(), fixed_lit_symbols())
}

/// The fixed distance decoding tables.
pub open spec fn fixed_dist_tables() -> (Seq<u16>, Seq<u16>) {
    (Seq::new(16, |l: int| if l == 5 { 30u16 } else { 0u16 }), Seq::new(30, |i: int| i as u16))
}

proof fn lemma_fixed_lit_count(l: int, k: int)
    requires
        0 <= k <= 288,
    ensures
        count_len(fixed_lit_lens(), l, k) == fixed_lit_count(l, k),
    decreases k,
{
    if k > 0 {
        lemma_fixed_lit_count(l, k - 1);
    }
}

proof fn lemma_fixed_lit_syms(l: int, k: int)
    requires
        0 <= k <= 288,
        7 <= l <= 9,
    ensures
        syms_of_len(fixed_lit_lens(), l, k) == Seq::new(
            fixed_lit_count(l, k) as nat,
            |i: int| fixed_lit_sym(l, i),
        ),
    decreases k,
{
    if k > 0 {
        lemma_fixed_lit_syms(l, k - 1);
        assert(syms_of_len(fixed_lit_lens(), l, k) =~= Seq::new(
            fixed_lit_count(l, k) as nat,
            |i: int| fixed_lit_sym(l, i),
        ));
    } else {
        assert(syms_of_len(fixed_lit_lens(), l, k) =~= Seq::new(
            fixed_lit_count(l, k) as nat,
            |i: int| fixed_lit_sym(l, i),
        ));
    }
}

proof fn lemma_fixed_lit_none(l: int, k: int)
    requires
        0 <= k <= 288,
        !(7 <= l <= 9),
    ensures
        syms_of_len(fixed_lit_lens(), l, k) == Seq::<u16>::empty(),
    decreases k,
{
    if k > 0 {
        lemma_fixed_lit_none(l, k - 1);
    }
}

/// The number of fixed literal/length symbols with code lengths up to `l`.
pub open spec fn fixed_lit_upto(l: int) -> int {
    if l < 7 {
        0
    } else if l == 7 {
        24
    } else if l == 8 {
        176
    } else {
        288
    }
}

proof fn lemma_fixed_lit_canonical(l: int)
    requires
        0 <= l <= 15,
    ensures
        canonical_symbols(fixed_lit_lens(), l) == fixed_lit_symbols().take(fixed_lit_upto(l)),
    decreases l,
{
    if l == 0 {
        assert(fixed_lit_symbols().take(0) =~= Seq::<u16>::empty());
    } else {
        lemma_fixed_lit_canonical(l - 1);
        assert(fixed_lit_lens().len() == 288);
        if 7 <= l <= 9 {
            lemma_fixed_lit_syms(l, 288);
        } else {
            lemma_fixed_lit_none(l, 288);
        }
        assert(canonical_symbols(fixed_lit_lens(), l) =~= fixed_lit_symbols().take(
            fixed_lit_upto(l),
        ));
    }
}

/// The decoding tables of the fixed literal/length code.
pub proof fn lemma_fixed_lit_tables()
    ensures
        huffman_spec(fixed_lit_lens()) == Some(fixed_lit_tables()),
{
    let lens = fixed_lit_lens();
    assert(lens[0] != 0);
    assert(!(exists|i: int| 0 <= i < lens.len() && #[trigger] lens[i] > 15));
    lemma_fixed_lit_canonical(15);
    assert(fixed_lit_symbols().take(288) =~= fixed_lit_symbols());
    assert forall|l: int| 0 <= l < 16 implies #[trigger] fixed_lit_counts()[l] == (if l == 0 {
        0u16
    } else {
        count_len(lens, l, lens.len() as int) as u16
    }) by {
        lemma_fixed_lit_count(l, 288);
    }
    assert(Seq::new(
        16,
        |l: int|
            if l == 0 {
                0u16
            } else {
                count_len(lens, l, lens.len() as int) as u16
            },
    ) =~= fixed_lit_counts());
}

proof fn lemma_fixed_dist_count(l: int, k: int)
    requires
        0 <= k <= 30,
    ensures
        count_len(fixed_dist_lens(), l, k) == if l == 5 {
            k
        } else {
            0
        },
        syms_of_len(fixed_dist_lens(), l, k) == if l == 5 {
            Seq::new(k as nat, |i: int| i as u16)
        } else {
            Seq::<u16>::empty()
        },
    decreases k,
{
    if k > 0 {
        lemma_fixed_dist_count(l, k - 1);
    }
    if l == 5 {
        assert(syms_of_len(fixed_dist_lens(), l, k) =~= Seq::new(k as nat, |i: int| i as u16));
    }
}

proof fn lemma_fixed_dist_canonical(l: int)
    requires
        0 <= l <= 15,
    ensures
        canonical_symbols(fixed_dist_lens(), l) == if l < 5 {
            Seq::<u16>::empty()
        } else {
            Seq::new(30, |i: int| i as u16)
        },
    decreases l,
{
    if l > 0 {
        lemma_fixed_dist_canonical(l - 1);
        lemma_fixed_dist_count(l, 30);
        assert(canonical_symbols(fixed_dist_lens(), l) =~= if l < 5 {
            Seq::<u16>::empty()
        } else {
            Seq::new(30, |i: int| i as u16)
        });
    }
}

/// The decoding tables of the fixed distance code.
pub proof fn lemma_fixed_dist_tables()
    ensures
        huffman_spec(fixed_dist_lens()) == Some(fixed_dist_tables()),
{
    let lens = fixed_dist_lens();
    assert(lens[0] != 0);
    assert(!(exists|i: int| 0 <= i < lens.len() && #[trigger] lens[i] > 15));
    lemma_fixed_dist_canonical(15);
    assert forall|l: int| 0 <= l < 16 implies #[trigger] fixed_dist_tables().0[l] == (if l == 0 {
        0u16
    } else {
        count_len(lens, l, lens.len() as int) as u16
    }) by {
        lemma_fixed_dist_count(l, 30);
    }
    assert(Seq::new(
        16,
        |l: int|
            if l == 0 {
                0u16
            } else {
                count_len(lens, l, lens.len() as int) as u16
            },
    ) =~= fixed_dist_tables().0);
}

/// Bit `j` of a code written most significant bit first.
proof fn lemma_code_bit(s: Seq<bool>, p: int, c: int, n: nat, j: int)
    requires
        0 <= j < n,
        0 <= p,
        p + n <= s.len(),
        0 <= c,
        s.subrange(p, p + n) == msb_bits(c, n),
    ensures
        s[p + j] == ((c / pow2((n - 1 - j) as nat) as int) % 2 == 1),
{
    lemma_msb_bits_index(c, n, j);
    assert(s[p + j] == s.subrange(p, p + n)[j]);
}

/// While the code lengths read so far have no codes, decoding only
/// gathers bits: after `j - 1` bits the code read is the top `j - 1` bits
/// of `c`.
proof fn lemma_huff_zero_run(
    counts: Seq<u16>,
    syms: Seq<u16>,
    s: Seq<bool>,
    p: int,
    c: int,
    n: nat,
    j: int,
)
    requires
        1 <= j <= n,
        n <= 15,
        0 <= p,
        p + n <= s.len(),
        0 <= c < pow2(n),
        s.subrange(p, p + n) == msb_bits(c, n),
        counts.len() == 16,
        forall|l: int| 1 <= l < j ==> counts[l] == 0,
    ensures
        huff_step(counts, syms, s, p, 1, 0, 0, 0) == huff_step(
            counts,
            syms,
            s,
            p + j - 1,
            j,
            2 * (c / pow2((n - j + 1) as nat) as int),
            0,
            0,
        ),
    decreases j,
{
    lemma_pow2_pos(n);
    if j == 1 {
        assert(c / pow2(n) as int == 0) by {
            vstd::arithmetic::div_mod::lemma_basic_div(c, pow2(n) as int);
        }
    } else {
        lemma_huff_zero_run(counts, syms, s, p, c, n, j - 1);
        let k = (n - j + 1) as nat;
        lemma_pow2_unfold(k + 1);
        lemma_pow2_pos(k);
        lemma_code_bit(s, p, c, n, j - 2);
        let x = c / pow2(k) as int;
        assert(c / pow2(k + 1) as int == x / 2) by {
            vstd::arithmetic::div_mod::lemma_div_denominator(c, pow2(k) as int, 2);
            assert(pow2(k + 1) == pow2(k) * 2);
        }
        assert(x >= 0) by {
            vstd::arithmetic::div_mod::lemma_div_pos_is_pos(c, pow2(k) as int);
        }
        assert(2 * (x / 2) + x % 2 == x);
        let bit: int = if s[p + j - 2] {
            1
        } else {
            0
        };
        assert(2 * (c / pow2(k + 1) as int) + bit == x);
    }
}

/// A fixed literal/length code reads back as its symbol.
#[verifier::rlimit(100)]
pub proof fn lemma_fixed_lit_decode(s: Seq<bool>, p: int, sym: u16)
    requires
        sym <= 287,
        0 <= p,
        p + fixed_lit_code_spec(sym).1 <= s.len(),
        s.subrange(p, p + fixed_lit_code_spec(sym).1) == msb_bits(
            fixed_lit_code_spec(sym).0 as int,
            fixed_lit_code_spec(sym).1 as nat,
        ),
    ensures
        huff_decode(fixed_lit_tables(), s, p) == Some((sym, p + fixed_lit_code_spec(sym).1)),
{
    let (cc, nn) = fixed_lit_code_spec(sym);
    let c = cc as int;
    let n = nn as nat;
    let t = fixed_lit_tables();
    let counts = t.0;
    let syms = t.1;
    lemma2_to64();
    assert(counts.len() == 16);
    assert(forall|l: int| 1 <= l < 7 ==> counts[l] == 0);
    assert(counts[7] == 24 && counts[8] == 152 && counts[9] == 112);
    lemma_huff_zero_run(counts, syms, s, p, c, n, 7);
    if n == 7 {
        lemma_code_bit(s, p, c, n, 6);
        assert(((n - 1 - 6) as nat) == 0);
        assert(c / (pow2(0) as int) == c);
        assert(2 * (c / 2) + (if s[p + 6] { 1int } else { 0int }) == c);
        assert(huff_step(counts, syms, s, p + 6, 7, 2 * (c / 2), 0, 0) == Some((syms[c], p + 7)));
        assert(syms[c] == sym);
    } else if n == 8 {
        lemma_code_bit(s, p, c, n, 6);
        lemma_code_bit(s, p, c, n, 7);
        assert(((n - 1 - 7) as nat) == 0);
        assert(c / (pow2(0) as int) == c);
        let c7 = c / 2;
        assert(2 * (c / 4) + (if s[p + 6] { 1int } else { 0int }) == c7);
        assert(c7 >= 24);
        assert(huff_step(counts, syms, s, p + 6, 7, 2 * (c / 4), 0, 0) == huff_step(
            counts,
            syms,
            s,
            p + 7,
            8,
            2 * c7,
            48,
            24,
        ));
        assert(2 * c7 + (if s[p + 7] { 1int } else { 0int }) == c);
        assert(huff_step(counts, syms, s, p + 7, 8, 2 * c7, 48, 24) == Some(
            (syms[24 + c - 48], p + 8),
        ));
        assert(syms[24 + c - 48] == sym);
    } else {
        assert(n == 9);
        lemma_code_bit(s, p, c, n, 6);
        lemma_code_bit(s, p, c, n, 7);
        lemma_code_bit(s, p, c, n, 8);
        assert(((n - 1 - 8) as nat) == 0);
        assert(c / (pow2(0) as int) == c);
        let c7 = c / 4;
        let c8 = c / 2;
        assert(2 * (c / 8) + (if s[p + 6] { 1int } else { 0int }) == c7);
        assert(c7 >= 24);
        assert(huff_step(counts, syms, s, p + 6, 7, 2 * (c / 8), 0, 0) == huff_step(
            counts,
            syms,
            s,
            p + 7,
            8,
            2 * c7,
            48,
            24,
        ));
        assert(2 * c7 + (if s[p + 7] { 1int } else { 0int }) == c8);
        assert(c8 >= 200);
        assert(huff_step(counts, syms, s, p + 7, 8, 2 * c7, 48, 24) == huff_step(
            counts,
            syms,
            s,
            p + 8,
            9,
            2 * c8,
            400,
            176,
        ));
        assert(2 * c8 + (if s[p + 8] { 1int } else { 0int }) == c);
        assert(huff_step(counts, syms, s, p + 8, 9, 2 * c8, 400, 176) == Some(
            (syms[176 + c - 400], p + 9),
        ));
        assert(syms[176 + c - 400] == sym);
    }
}

/// A five-bit fixed distance code reads back as its symbol.
pub proof fn lemma_fixed_dist_decode(s: Seq<bool>, p: int, d: int)
    requires
        0 <= d < 30,
        0 <= p,
        p + 5 <= s.len(),
        s.subrange(p, p + 5) == msb_bits(d, 5),
    ensures
        huff_decode(fixed_dist_tables(), s, p) == Some((d as u16, p + 5)),
{
    let t = fixed_dist_tables();
    let counts = t.0;
    let syms = t.1;
    lemma2_to64();
    lemma_huff_zero_run(counts, syms, s, p, d, 5, 5);
    lemma_code_bit(s, p, d, 5, 4);
    assert(((5 - 1 - 4) as nat) == 0);
    assert(d / (pow2(0) as int) == d);
    assert(2 * (d / 2) + (if s[p + 4] { 1int } else { 0int }) == d);
    assert(huff_step(counts, syms, s, p + 4, 5, 2 * (d / 2), 0, 0) == Some((syms[d], p + 5)));
}

/// A copy of `x + y` at `p` holds a copy of `x` at `p` and of `y` after it.
pub proof fn lemma_seq_split<T>(s: Seq<T>, p: int, x: Seq<T>, y: Seq<T>)
    requires
        0 <= p,
        p + x.len() + y.len() <= s.len(),
        s.subrange(p, p + x.len() + y.len()) == x + y,
    ensures
        s.subrange(p, p + x.len()) == x,
        s.subrange(p + x.len(), p + x.len() + y.len()) == y,
{
    assert(s.subrange(p, p + x.len()) =~= (x + y).subrange(0, x.len() as int));
    assert(s.subrange(p + x.len(), p + x.len() + y.len()) =~= (x + y).subrange(
        x.len() as int,
        (x.len() + y.len()) as int,
    ));
}

proof fn lemma_len_index_next(len: int, k: int)
    requires
        3 <= len <= 258,
        0 <= k <= 27,
    ensures
        len_index_from(len, k) == k || len_base_table()[len_index_from(len, k) + 1] as int > len,
    decreases k,
{
    if k > 0 && len_base_table()[k] as int > len {
        lemma_len_index_next(len, k - 1);
    }
}

proof fn lemma_dist_index_next(dist: int, k: int)
    requires
        1 <= dist <= 32768,
        0 <= k <= 29,
    ensures
        dist_index_from(dist, k) == k || dist_base_table()[dist_index_from(dist, k) + 1] as int
            > dist,
    decreases k,
{
    if k > 0 && dist_base_table()[k] as int > dist {
        lemma_dist_index_next(dist, k - 1);
    }
}

/// A match length splits into a length symbol's base and extra bits that
/// fit.
pub proof fn lemma_len_code(len: int)
    requires
        3 <= len <= 258,
    ensures
        0 <= len_index(len) <= 27,
        len_base_table()[len_index(len)] as int <= len,
        len - len_base_table()[len_index(len)] < pow2(len_extra_table()[len_index(len)] as nat),
{
    lemma_len_index_from(len, 27);
    lemma_len_index_next(len, 27);
    lemma2_to64();
    let i = len_index(len);
    assert(forall|j: int|
        0 <= j < 27 ==> #[trigger] len_base_table()[j] + pow2(len_extra_table()[j] as nat)
            == len_base_table()[j + 1]);
}

/// A match distance splits into a distance symbol's base and extra bits
/// that fit.
pub proof fn lemma_dist_code(dist: int)
    requires
        1 <= dist <= 32768,
    ensures
        0 <= dist_index(dist) <= 29,
        dist_base_table()[dist_index(dist)] as int <= dist,
        dist - dist_base_table()[dist_index(dist)] < pow2(dist_extra_table()[dist_index(dist)] as nat),
{
    lemma_dist_index_from(dist, 29);
    lemma_dist_index_next(dist, 29);
    lemma2_to64();
    let i = dist_index(dist);
    assert(forall|j: int|
        0 <= j < 29 ==> #[trigger] dist_base_table()[j] + pow2(dist_extra_table()[j] as nat)
            == dist_base_table()[j + 1]);
}

/// A token fits at the end of `out`: a copy reaches back no further than
/// the output and stays within DEFLATE's limits.
pub open spec fn token_fits(out: Seq<u8>, t: Token) -> bool {
    match t {
        Token::Lit(_) => true,
        Token::Copy(len, dist) => 3 <= len <= 258 && 1 <= dist <= 32768 && dist <= out.len(),
    }
}

/// Decoding a token's bits appends what the token stands for.
#[verifier::rlimit(100)]
pub proof fn lemma_token_decode(s: Seq<bool>, q: int, out: Seq<u8>, t: Token)
    requires
        0 <= q,
        q + token_bits(t).len() <= s.len(),
        s.subrange(q, q + token_bits(t).len()) == token_bits(t),
        token_fits(out, t),
    ensures
        token_bits(t).len() > 0,
        codes_spec(s, q, out, fixed_lit_tables(), fixed_dist_tables()) == codes_spec(
            s,
            q + token_bits(t).len(),
            apply_token(out, t),
            fixed_lit_tables(),
            fixed_dist_tables(),
        ),
{
    let lt = fixed_lit_tables();
    let dt = fixed_dist_tables();
    match t {
        Token::Lit(b) => {
            let (c, n) = fixed_lit_code_spec(b as u16);
            lemma_msb_bits_len(c as int, n as nat);
            lemma_fixed_lit_decode(s, q, b as u16);
            assert((b as u16) as u8 == b);
        },
        Token::Copy(len, dist) => {
            lemma_len_code(len as int);
            lemma_dist_code(dist as int);
            let li = len_index(len as int);
            let sym = (257 + li) as u16;
            let (c, n) = fixed_lit_code_spec(sym);
            let di = dist_index(dist as int);
            let e = len_extra_table()[li] as nat;
            let de = dist_extra_table()[di] as nat;
            let lx = len - len_base_table()[li];
            let dx = dist - dist_base_table()[di];
            let a = msb_bits(c as int, n as nat);
            let b = lsb_bits(lx, e);
            let cc = msb_bits(di, 5);
            let d = lsb_bits(dx, de);
            lemma_msb_bits_len(c as int, n as nat);
            lemma_lsb_bits_len(lx, e);
            lemma_msb_bits_len(di, 5);
            lemma_lsb_bits_len(dx, de);
            assert(token_bits(t) == a + b + cc + d);
            lemma_seq_split(s, q, a + b + cc, d);
            lemma_seq_split(s, q, a + b, cc);
            lemma_seq_split(s, q, a, b);
            let p1 = q + n;
            let p2 = p1 + e;
            let p3 = p2 + 5;
            let p4 = p3 + de;
            lemma_fixed_lit_decode(s, q, sym);
            lemma_bv_lsb(s, p1, e, lx);
            lemma_fixed_dist_decode(s, p2, di);
            lemma_bv_lsb(s, p3, de, dx);
            assert(sym - 257 == li);
            assert(match_spec(s, p1, out, sym, dt) == Some(
                (p4, lz_copy(out, len as nat, dist as int)),
            ));
        },
    }
}

/// Valid tokens each fit the output of the tokens before them.
pub proof fn lemma_tokens_valid_at(ts: Seq<Token>, k: int)
    requires
        tokens_valid(ts),
        0 <= k < ts.len(),
    ensures
        token_fits(expand(ts.take(k)), ts[k]),
    decreases ts.len(),
{
    if k < ts.len() - 1 {
        assert(ts.drop_last().take(k) =~= ts.take(k));
        lemma_tokens_valid_at(ts.drop_last(), k);
    } else {
        assert(ts.take(k) =~= ts.drop_last());
    }
}

/// The first `k + 1` tokens: the first `k`, then token `k`.
pub proof fn lemma_tokens_step(ts: Seq<Token>, k: int)
    requires
        0 <= k < ts.len(),
    ensures
        tokens_bits(ts.take(k + 1)) == tokens_bits(ts.take(k)) + token_bits(ts[k]),
        expand(ts.take(k + 1)) == apply_token(expand(ts.take(k)), ts[k]),
{
    assert(ts.take(k + 1).drop_last() =~= ts.take(k));
    assert(ts.take(k + 1).last() == ts[k]);
}

/// The bits of the first `k` tokens begin the bits of all of them.
pub proof fn lemma_tokens_prefix(ts: Seq<Token>, k: int)
    requires
        0 <= k <= ts.len(),
    ensures
        tokens_bits(ts.take(k)).len() <= tokens_bits(ts).len(),
        tokens_bits(ts).subrange(0, tokens_bits(ts.take(k)).len() as int) == tokens_bits(
            ts.take(k),
        ),
    decreases ts.len() - k,
{
    if k == ts.len() {
        assert(ts.take(k) =~= ts);
        assert(tokens_bits(ts).subrange(0, tokens_bits(ts).len() as int) =~= tokens_bits(ts));
    } else {
        lemma_tokens_prefix(ts, k + 1);
        lemma_tokens_step(ts, k);
        let full = tokens_bits(ts);
        let a1 = tokens_bits(ts.take(k + 1));
        let a0 = tokens_bits(ts.take(k));
        assert(full.subrange(0, a0.len() as int) =~= a1.subrange(0, a0.len() as int));
        assert(a1.subrange(0, a0.len() as int) =~= a0);
    }
}

/// Decoding the bits of tokens `k..` after the output of tokens `..k`
/// gives the output of all of them, ending after the end-of-block code.
pub proof fn lemma_tokens_decode(s: Seq<bool>, ts: Seq<Token>, k: int)
    requires
        tokens_valid(ts),
        0 <= k <= ts.len(),
        3 + tokens_bits(ts).len() + 7 <= s.len(),
        s.subrange(3, 3 + tokens_bits(ts).len() as int) == tokens_bits(ts),
        s.subrange(3 + tokens_bits(ts).len() as int, 3 + tokens_bits(ts).len() as int + 7)
            == end_of_block_bits(),
    ensures
        codes_spec(
            s,
            3 + tokens_bits(ts.take(k)).len() as int,
            expand(ts.take(k)),
            fixed_lit_tables(),
            fixed_dist_tables(),
        ) == Some((3 + tokens_bits(ts).len() as int + 7, expand(ts))),
    decreases ts.len() - k,
{
    let lt = fixed_lit_tables();
    let dt = fixed_dist_tables();
    let tb = tokens_bits(ts);
    if k == ts.len() {
        assert(ts.take(k) =~= ts);
        let e = 3 + tb.len() as int;
        lemma_fixed_lit_decode(s, e, 256);
        assert(codes_spec(s, e, expand(ts), lt, dt) == Some((e + 7, expand(ts))));
    } else {
        lemma_tokens_step(ts, k);
        lemma_tokens_prefix(ts, k + 1);
        lemma_tokens_valid_at(ts, k);
        let a0 = tokens_bits(ts.take(k));
        let a1 = tokens_bits(ts.take(k + 1));
        let x = token_bits(ts[k]);
        assert(s.subrange(3, 3 + a1.len() as int) =~= tb.subrange(0, a1.len() as int));
        lemma_seq_split(s, 3, a0, x);
        lemma_token_decode(s, 3 + a0.len() as int, expand(ts.take(k)), ts[k]);
        lemma_tokens_decode(s, ts, k + 1);
    }
}

/// A fixed-Huffman block written for valid tokens inflates to the bytes
/// the tokens stand for.
pub proof fn law_fixed_block_inflates(ts: Seq<Token>)
    requires
        tokens_valid(ts),
    ensures
        inflate_spec(bytes_to_bits(fixed_block_bytes(ts)), 0, Seq::empty()) == Some(
            (3 + tokens_bits(ts).len() as int + 7, expand(ts)),
        ),
{
    let h = fixed_block_header();
    let tb = tokens_bits(ts);
    let e = end_of_block_bits();
    let bits = h + tb + e;
    lemma_pack_bits(bits);
    let s = bytes_to_bits(fixed_block_bytes(ts));
    assert(s == bits + zeros(pad_len(bits.len())));
    lemma_lsb_bits_len(1, 1);
    lemma_lsb_bits_len(1, 2);
    lemma_msb_bits_len(0, 7);
    assert(s.subrange(0, bits.len() as int) =~= bits);
    lemma_seq_split(s, 0, h + tb, e);
    lemma_seq_split(s, 0, h, tb);
    lemma_seq_split(s, 0, lsb_bits(1, 1), lsb_bits(1, 2));
    lemma2_to64();
    lemma_bv_lsb(s, 0, 1, 1);
    lemma_bv_lsb(s, 1, 2, 1);
    lemma_fixed_lit_tables();
    lemma_fixed_dist_tables();
    lemma_tokens_decode(s, ts, 0);
    assert(ts.take(0) =~= Seq::<Token>::empty());
}

proof fn lemma_le16_bytes(x: u16)
    ensures
        (x as u8) as int + 256 * ((x >> 8) as u8) as int == x as int,
        ((!x) as u8) as int + 256 * (((!x) >> 8) as u8) as int == 65535 - x as int,
{
    assert((x as u8) as int + 256 * ((x >> 8) as u8) as int == x as int) by (bit_vector);
    assert(((!x) as u8) as int + 256 * (((!x) >> 8) as u8) as int == 65535 - x as int)
        by (bit_vector);
}

/// `n` zero bits are the low bits of zero.
pub proof fn lemma_lsb_bits_zero(n: nat)
    ensures
        lsb_bits(0, n) == zeros(n),
{
    lemma2_to64();
    lemma_lsb_bits_pad(0, 0, n);
    assert(lsb_bits(0, 0) + zeros(n) =~= zeros(n));
}

/// The header byte of a stored block: the final flag, then block type 0.
proof fn lemma_stored_header(x: Seq<u8>, o: int, flag: u8)
    requires
        0 <= o < x.len(),
        x[o] == flag,
        flag <= 1,
    ensures
        bv(bytes_to_bits(x), 8 * o, 1) == flag,
        bv(bytes_to_bits(x), 8 * o + 1, 2) == 0,
{
    let s = bytes_to_bits(x);
    lemma_bytes_bits_byte(x, o);
    lemma2_to64();
    lemma_lsb_bits_pad(flag as int, 1, 7);
    lemma_lsb_bits_len(flag as int, 1);
    lemma_seq_split(s, 8 * o, lsb_bits(flag as int, 1), zeros(7));
    assert(s.subrange(8 * o + 1, 8 * o + 3) =~= zeros(7).subrange(0, 2));
    lemma_lsb_bits_zero(2);
    assert(zeros(7).subrange(0, 2) =~= zeros(2));
    lemma_bv_lsb(s, 8 * o, 1, flag as int);
    lemma_bv_lsb(s, 8 * o + 1, 2, 0);
}

/// One stored block at byte `o` of `x`: its header, and what reading it
/// appends.
#[verifier::rlimit(100)]
#[verifier::spinoff_prover]
proof fn lemma_stored_block(x: Seq<u8>, o: int, flag: u8, n: int, body: Seq<u8>, out: Seq<u8>)
    requires
        0 <= o,
        flag <= 1,
        0 <= n <= 65535,
        body.len() == n,
        o + 5 + n <= x.len(),
        x.subrange(o, o + 5 + n) == seq![flag] + le16(n as u16) + le16(!(n as u16)) + body,
    ensures
        bv(bytes_to_bits(x), 8 * o, 1) == flag,
        bv(bytes_to_bits(x), 8 * o + 1, 2) == 0,
        stored_spec(bytes_to_bits(x), 8 * o + 3, out) == Some((8 * (o + 5 + n), out + body)),
{
    let s = bytes_to_bits(x);
    lemma_bytes_to_bits_len(x);
    let nn = n as u16;
    let hdr = seq![flag] + le16(nn) + le16(!nn);
    lemma_seq_split(x, o, hdr, body);
    let h5 = seq![flag, nn as u8, (nn >> 8) as u8, (!nn) as u8, ((!nn) >> 8) as u8];
    assert(hdr =~= h5);
    let xs = x.subrange(o, o + 5);
    assert(x[o] == xs[0]);
    assert(x[o + 1] == xs[1]);
    assert(x[o + 2] == xs[2]);
    assert(x[o + 3] == xs[3]);
    assert(x[o + 4] == xs[4]);
    lemma_stored_header(x, o, flag);
    lemma_le16_bytes(nn);
    assert(nn as int == n);
    lemma_bytes_bits_le16(x, o + 1);
    lemma_bytes_bits_le16(x, o + 3);
    let a = 8 * o + 8;
    assert(8 * (o + 1) == a);
    assert(8 * (o + 3) == a + 16);
    assert(align_up(8 * o + 3) == a);
    assert(bv(s, a, 16) == n);
    assert(bv(s, a + 16, 16) == 65535 - n);
    assert forall|k: int| 0 <= k < n implies #[trigger] stream_bytes(s, a + 32, n as nat)[k]
        == body[k] by {
        lemma_bytes_bits_byte(x, o + 5 + k);
        assert(8 * (o + 5 + k) == a + 32 + 8 * k);
        assert(x[o + 5 + k] == x.subrange(o + 5, o + 5 + n)[k]);
    }
    assert(stream_bytes(s, a + 32, n as nat) =~= body);
}

/// One step of inflating: a stored block at `p`.
proof fn lemma_inflate_stored_step(s: Seq<bool>, p: int, out: Seq<u8>, q: int, out2: Seq<u8>)
    requires
        0 <= p,
        p + 3 <= s.len(),
        bv(s, p + 1, 2) == 0,
        stored_spec(s, p + 3, out) == Some((q, out2)),
        p < q <= s.len(),
    ensures
        inflate_spec(s, p, out) == if bv(s, p, 1) == 1 {
            Some((q, out2))
        } else {
            inflate_spec(s, q, out2)
        },
{
}

/// Stored blocks from `pos` on, at byte `o` of `x`, inflate to the rest of
/// the data.
#[verifier::rlimit(100)]
#[verifier::spinoff_prover]
pub proof fn lemma_stored_from(x: Seq<u8>, o: int, data: Seq<u8>, pos: int)
    requires
        0 <= o,
        0 <= pos <= data.len(),
        pos < data.len() || pos == 0,
        o + stored_blocks_from(data, pos).len() <= x.len(),
        x.subrange(o, o + stored_blocks_from(data, pos).len()) == stored_blocks_from(data, pos),
    ensures
        inflate_spec(bytes_to_bits(x), 8 * o, data.take(pos)) == Some(
            (8 * (o + stored_blocks_from(data, pos).len()), data),
        ),
    decreases data.len() - pos,
{
    let s = bytes_to_bits(x);
    lemma_bytes_to_bits_len(x);
    let n: int = if data.len() - pos < 65535 {
        data.len() - pos
    } else {
        65535
    };
    let last = pos + n == data.len();
    let flag: u8 = if last {
        1u8
    } else {
        0u8
    };
    let body = data.subrange(pos, pos + n);
    let block = seq![flag] + le16(n as u16) + le16(!(n as u16)) + body;
    let rest = stored_blocks_from(data, pos + n);
    let all = stored_blocks_from(data, pos);
    if last {
        assert(all == block);
    } else {
        assert(all == block + rest);
    }
    assert(block.len() == 5 + n);
    assert(x.subrange(o, o + 5 + n) =~= all.subrange(0, 5 + n));
    assert(all.subrange(0, 5 + n) =~= block);
    lemma_stored_block(x, o, flag, n, body, data.take(pos));
    assert(data.take(pos) + body =~= data.take(pos + n));
    lemma_inflate_stored_step(s, 8 * o, data.take(pos), 8 * (o + 5 + n), data.take(pos + n));
    if last {
        assert(data.take(pos + n) =~= data);
    } else {
        let o2 = o + 5 + n;
        assert(x.subrange(o2, o2 + rest.len()) =~= all.subrange(5 + n, all.len() as int));
        assert(all.subrange(5 + n, all.len() as int) =~= rest);
        lemma_stored_from(x, o2, data, pos + n);
    }
}

/// Stored blocks inflate to the data they hold.
pub proof fn law_stored_blocks_inflate(data: Seq<u8>)
    ensures
        inflate_spec(bytes_to_bits(stored_blocks(data)), 0, Seq::empty()) == Some(
            (8 * stored_blocks_from(data, 0).len() as int, data),
        ),
{
    let x = stored_blocks(data);
    let sb = stored_blocks_from(data, 0);
    assert(x.subrange(0, sb.len() as int) =~= sb);
    lemma_stored_from(x, 0, data, 0);
    assert(data.take(0) =~= Seq::<u8>::empty());
}

/// The big-endian bytes of a 32-bit value read back as that value.
pub proof fn lemma_be32_value(x: u32)
    ensures
        be32_value(be32(x)[0], be32(x)[1], be32(x)[2], be32(x)[3]) == x as int,
{
    let b = be32(x);
    assert(b[0] == (x >> 24) as u8 && b[1] == (x >> 16) as u8 && b[2] == (x >> 8) as u8 && b[3]
        == x as u8);
    assert(((x >> 24) as u8) as int * 16777216 + ((x >> 16) as u8) as int * 65536 + ((x >> 8) as u8) as int
        * 256 + (x as u8) as int == x as int) by (bit_vector);
}

/// The Adler-32 sums stay below the modulus.
pub proof fn lemma_adler_sums_bounded(data: Seq<u8>, i: nat)
    requires
        i <= data.len(),
    ensures
        0 <= adler_sums(data, i).0 < ADLER_MOD,
        0 <= adler_sums(data, i).1 < ADLER_MOD,
    decreases i,
{
    if i > 0 {
        lemma_adler_sums_bounded(data, (i - 1) as nat);
    }
}

/// A zlib stream the encoder writes decodes to the data it was written
/// for: whether the encoder kept its fixed-Huffman block or fell back to
/// stored blocks, the body inflates to the data and the trailer matches.
pub proof fn law_zlib_roundtrip(data: Seq<u8>, ts: Seq<Token>)
    requires
        tokens_valid(ts),
        expand(ts) == data,
    ensures
        zlib_decode_spec(zlib_stream(data, ts)) == Some(data),
{
    let compressed = fixed_block_bytes(ts);
    let body = if compressed.len() < stored_threshold(data.len() as int) {
        compressed
    } else {
        stored_blocks(data)
    };
    let ad = adler32_spec(data);
    lemma_adler_sums_bounded(data, data.len());
    assert(0 <= ad < 0x1_0000_0000);
    let tr = be32(ad as u32);
    let z = zlib_stream(data, ts);
    assert(z == seq![0x78u8, 0x01] + body + tr);
    let n = z.len() as int;
    assert(z[0] == 0x78 && z[1] == 0x01);
    assert(0x78u8 & 0x0F == 8) by (bit_vector);
    assert(0x01u8 & 0x20 == 0) by (bit_vector);
    assert(zlib_header_ok(z));
    assert(zlib_body(z) =~= body);
    if compressed.len() < stored_threshold(data.len() as int) {
        law_fixed_block_inflates(ts);
    } else {
        law_stored_blocks_inflate(data);
    }
    lemma_be32_value(ad as u32);
    assert(z[n - 4] == tr[0] && z[n - 3] == tr[1] && z[n - 2] == tr[2] && z[n - 1] == tr[3]);
}

} // verus!
