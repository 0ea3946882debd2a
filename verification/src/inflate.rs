use crate::bitio::{bits_value, BitReader};
use crate::deflate::{
    dist_base, dist_base_table, dist_extra, dist_extra_table, len_base, len_base_table, len_extra,
    len_extra_table, lz_copy,
};
use vstd::arithmetic::power2::*;
use vstd::prelude::*;

verus! {

/// The value of `n` stream bits starting at `p`, least significant first.
pub open spec fn bv(s: Seq<bool>, p: int, n: int) -> int {
    bits_value(s.subrange(p, p + n)) as int
}

/// Number of symbols below `k` whose code length is `l`.
pub open spec fn count_len(lens: Seq<u8>, l: int, k: int) -> nat
    decreases k,
{
    if k <= 0 {
        0
    } else {
        count_len(lens, l, k - 1) + if lens[k - 1] as int == l {
            1nat
        } else {
            0nat
        }
    }
}

/// The symbols below `k` whose code length is `l`, in increasing order.
pub open spec fn syms_of_len(lens: Seq<u8>, l: int, k: int) -> Seq<u16>
    decreases k,
{
    if k <= 0 {
        Seq::empty()
    } else if lens[k - 1] as int == l {
        syms_of_len(lens, l, k - 1).push((k - 1) as u16)
    } else {
        syms_of_len(lens, l, k - 1)
    }
}

/// Symbols ordered by code length (lengths 1..=l), then by value: the
/// order canonical Huffman codes are assigned in (RFC 1951 §3.2.2).
pub open spec fn canonical_symbols(lens: Seq<u8>, l: int) -> Seq<u16>
    decreases l,
{
    if l <= 0 {
        Seq::empty()
    } else {
        canonical_symbols(lens, l - 1) + syms_of_len(lens, l, lens.len() as int)
    }
}

/// Symbols with code lengths 1..l-1 (the decoder's running index).
pub open spec fn count_sum(counts: Seq<u16>, l: int) -> int
    decreases l,
{
    if l <= 1 {
        0
    } else {
        count_sum(counts, l - 1) + counts[l - 1] as int
    }
}

/// The decoding tables built from a list of code lengths: `None` when a
/// length exceeds 15 or no symbol is used.
pub open spec fn huffman_spec(lens: Seq<u8>) -> Option<(Seq<u16>, Seq<u16>)> {
    if exists|i: int| 0 <= i < lens.len() && #[trigger] lens[i] > 15 {
        None
    } else if forall|i: int| 0 <= i < lens.len() ==> #[trigger] lens[i] == 0 {
        None
    } else {
        Some(
            (
                Seq::new(16, |l: int| if l == 0 { 0u16 } else { count_len(lens, l, lens.len() as int) as u16 }),
                canonical_symbols(lens, 15),
            ),
        )
    }
}

/// One step of canonical Huffman decoding, reading code bits most
/// significant first: `code` holds the bits read so far (shifted),
/// `first` the first code of length `len`, `index` the number of symbols
/// with shorter codes.
pub open spec fn huff_step(
    counts: Seq<u16>,
    symbols: Seq<u16>,
    s: Seq<bool>,
    p: int,
    len: int,
    code: int,
    first: int,
    index: int,
) -> Option<(u16, int)>
    decreases 16 - len,
{
    if len >= 16 || len < 1 || p < 0 || p >= s.len() {
        None
    } else {
        let c = code + if s[p] {
            1int
        } else {
            0int
        };
        let count = counts[len] as int;
        if c < first + count {
            Some((symbols[index + c - first], p + 1))
        } else {
            huff_step(counts, symbols, s, p + 1, len + 1, c * 2, (first + count) * 2, index + count)
        }
    }
}

/// Decode one symbol at stream position `p`: the symbol and the position
/// after its code.
pub open spec fn huff_decode(t: (Seq<u16>, Seq<u16>), s: Seq<bool>, p: int) -> Option<(u16, int)> {
    huff_step(t.0, t.1, s, p, 1, 0, 0, 0)
}

/// Canonical Huffman decoding tables.
pub struct Huffman {
    counts: Vec<u16>,
    symbols: Vec<u16>,
}

impl Huffman {
    pub closed spec fn tables(&self) -> (Seq<u16>, Seq<u16>) {
        (self.counts@, self.symbols@)
    }

    pub closed spec fn inv(&self) -> bool {
        &&& self.counts@.len() == 16
        &&& self.symbols@.len() == count_sum(self.counts@, 16)
        &&& self.symbols@.len() <= 8000
    }
}

proof fn lemma_count_len_bound(lens: Seq<u8>, l: int, k: int)
    requires
        0 <= k <= lens.len(),
    ensures
        count_len(lens, l, k) <= k,
        syms_of_len(lens, l, k).len() == count_len(lens, l, k),
    decreases k,
{
    if k > 0 {
        lemma_count_len_bound(lens, l, k - 1);
    }
}

proof fn lemma_canonical_len(lens: Seq<u8>, l: int, counts: Seq<u16>)
    requires
        0 <= l <= 15,
        counts.len() == 16,
        forall|j: int| 1 <= j <= 15 ==> #[trigger] counts[j] as int == count_len(lens, j, lens.len() as int),
    ensures
        canonical_symbols(lens, l).len() == count_sum(counts, l + 1),
    decreases l,
{
    if l > 0 {
        lemma_canonical_len(lens, l - 1, counts);
        lemma_count_len_bound(lens, l, lens.len() as int);
    }
}

proof fn lemma_count_total(lens: Seq<u8>, l: int, k: int)
    requires
        0 <= k <= lens.len(),
        0 <= l <= 15,
    ensures
        canonical_symbols(lens, l).len() <= l * lens.len(),
    decreases l,
{
    if l > 0 {
        lemma_count_total(lens, l - 1, k);
        lemma_count_len_bound(lens, l, lens.len() as int);
        assert((l - 1) * lens.len() + lens.len() == l * lens.len()) by (nonlinear_arith);
    }
}

impl Huffman {
    /// Build decoding tables from code lengths (`0` = symbol unused).
    ///
    /// A DEFLATE stream never defines more than 288 literal/length plus 32
    /// distance code lengths, so every list the inflater builds tables
    /// from has at most 320 entries; the bound keeps the per-length counts
    /// and table indices within their integer types.
    pub fn new(lens: &[u8]) -> (res: Result<Huffman, String>)
        requires
            lens@.len() <= 320,
        ensures
            res is Ok <==> huffman_spec(lens@) is Some,
            res matches Ok(h) ==> h.inv() && h.tables() == huffman_spec(lens@).unwrap(),
            res matches Err(e) ==> e@ == huffman_err(lens@),
    {
        let n = lens.len();
        let mut counts: Vec<u16> = vec![0u16; 16];
        let mut k: usize = 0;
        while k < n
            invariant
                n == lens@.len(),
                n <= 320,
                k <= n,
                counts@.len() == 16,
                forall|i: int| 0 <= i < k ==> #[trigger] lens@[i] <= 15,
                forall|l: int|
                    1 <= l <= 15 ==> #[trigger] counts@[l] as int == count_len(lens@, l, k as int),
                counts@[0] as int == count_len(lens@, 0, k as int),
            decreases n - k,
        {
            let l = lens[k];
            if l > 15 {
                assert(lens@[k as int] > 15);
                return Err("deflate: code length > 15".to_owned());
            }
            proof {
                assert forall|j: int| 0 <= j <= 15 implies count_len(lens@, j, k as int) <= k by {
                    lemma_count_len_bound(lens@, j, k as int);
                }
            }
            let c = counts[l as usize];
            counts.set(l as usize, c + 1);
            k = k + 1;
        }
        counts.set(0, 0);
        let mut any: bool = false;
        let mut l: usize = 1;
        while l < 16
            invariant
                1 <= l <= 16,
                counts@.len() == 16,
                any <==> exists|j: int| 1 <= j < l && #[trigger] counts@[j] != 0,
            decreases 16 - l,
        {
            if counts[l] != 0 {
                any = true;
            }
            l = l + 1;
        }
        proof {
            assert(!(exists|i: int| 0 <= i < lens@.len() && #[trigger] lens@[i] > 15));
        }
        if !any {
            proof {
                assert forall|i: int| 0 <= i < lens@.len() implies #[trigger] lens@[i] == 0 by {
                    if lens@[i] != 0 {
                        let j = lens@[i] as int;
                        lemma_count_len_pos(lens@, j, n as int, i);
                        assert(counts@[j] != 0);
                    }
                }
            }
            return Err("deflate: empty code".to_owned());
        }
        proof {
            if forall|i: int| 0 <= i < lens@.len() ==> #[trigger] lens@[i] == 0 {
                let j = choose|j: int| 1 <= j < 16 && #[trigger] counts@[j] != 0;
                lemma_count_len_zero(lens@, j, n as int);
            }
        }
        let mut symbols: Vec<u16> = Vec::new();
        let mut l: usize = 1;
        while l < 16
            invariant
                1 <= l <= 16,
                n == lens@.len(),
                n <= 320,
                symbols@ == canonical_symbols(lens@, (l - 1) as int),
            decreases 16 - l,
        {
            let mut k: usize = 0;
            let ghost before = symbols@;
            proof {
                lemma_count_total(lens@, (l - 1) as int, n as int);
                assert((l - 1) * n <= 15 * 320) by (nonlinear_arith)
                    requires
                        l <= 15,
                        n <= 320,
                ;
            }
            while k < n
                invariant
                    k <= n,
                    n == lens@.len(),
                    n <= 320,
                    1 <= l <= 15,
                    symbols@ == before + syms_of_len(lens@, l as int, k as int),
                    before.len() <= 15 * 320,
                    before.len() + k <= 16 * 320,
                decreases n - k,
            {
                proof {
                    lemma_count_len_bound(lens@, l as int, k as int);
                }
                if lens[k] as usize == l {
                    symbols.push(k as u16);
                }
                k = k + 1;
            }
            l = l + 1;
        }
        proof {
            lemma_canonical_len(lens@, 15, counts@);
            lemma_count_total(lens@, 15, n as int);
            assert(counts@ =~= huffman_spec(lens@).unwrap().0);
            assert(symbols@.len() <= 8000);
        }
        Ok(Huffman { counts, symbols })
    }

    /// Decode one symbol from the stream.
    pub fn decode(&self, r: &mut BitReader) -> (res: Result<u16, String>)
        requires
            self.inv(),
            old(r).inv(),
        ensures
            final(r).inv(),
            final(r).bytes() == old(r).bytes(),
            res is Ok <==> huff_decode(self.tables(), old(r).stream(), old(r).bitpos()) is Some,
            final(r).stream() == old(r).stream(),
            res matches Ok(sym) ==> huff_decode(self.tables(), old(r).stream(), old(r).bitpos())
                == Some((sym, final(r).bitpos())) && final(r).bitpos() > old(r).bitpos(),
            res matches Err(e) ==> e@ == huff_err(self.tables(), old(r).stream(), old(r).bitpos()),
    {
        let ghost s = r.stream();
        let ghost t = self.tables();
        let ghost p0 = r.bitpos();
        let mut code: u32 = 0;
        let mut first: u32 = 0;
        let mut index: usize = 0;
        let mut len: usize = 1;
        proof {
            r.lemma_bitpos_bound();
            lemma2_to64();
        }
        while len < 16
            invariant
                self.inv(),
                r.inv(),
                r.bytes() == old(r).bytes(),
                s == r.stream(),
                s == old(r).stream(),
                t == self.tables(),
                p0 == old(r).bitpos(),
                r.bitpos() == p0 + len - 1,
                1 <= len <= 16,
                index as int == count_sum(t.0, len as int),
                index <= t.1.len(),
                (code as int) < pow2(len as nat),
                code % 2 == 0,
                first <= code,
                first as int <= index as int * pow2((len - 1) as nat),
                huff_decode(t, s, p0) == huff_step(
                    t.0,
                    t.1,
                    s,
                    r.bitpos(),
                    len as int,
                    code as int,
                    first as int,
                    index as int,
                ),
                huff_err(t, s, p0) == huff_step_err(
                    t.0,
                    t.1,
                    s,
                    r.bitpos(),
                    len as int,
                    code as int,
                    first as int,
                    index as int,
                ),
            decreases 16 - len,
        {
            proof {
                lemma2_to64();
                r.lemma_bitpos_bound();
                vstd::bits::lemma_u32_pow2_no_overflow(len as nat);
                lemma_pow2_unfold(len as nat);
                lemma_count_sum_mono(t.0, len as int + 1, 16);
                lemma_pow2_strictly_increases((len - 1) as nat, 15);
            }
            let ghost p = r.bitpos();
            let b = match r.bits(1) {
                Ok(b) => b,
                Err(e) => {
                    return Err(e);
                },
            };
            proof {
                lemma_bits_value_one(s, p);
                assert(code + b < pow2(len as nat));
            }
            code = code + b;
            let count = self.counts[len] as u32;
            assert(first as int <= 8000 * 32768) by (nonlinear_arith)
                requires
                    first as int <= index as int * pow2((len - 1) as nat),
                    index <= 8000,
                    pow2((len - 1) as nat) <= pow2(15),
                    pow2(15) == 32768,
                    len <= 15,
                    pow2((len - 1) as nat) < 32768,
            ;
            if code < first + count {
                let sym = self.symbols[index + (code - first) as usize];
                return Ok(sym);
            }
            proof {
                assert((first as int + count as int) * 2 <= (index as int + count as int) * pow2(
                    len as nat,
                )) by (nonlinear_arith)
                    requires
                        first as int <= index as int * pow2((len - 1) as nat),
                        pow2(len as nat) == 2 * pow2((len - 1) as nat),
                        pow2((len - 1) as nat) >= 1,
                ;
            }
            index = index + count as usize;
            first = (first + count) * 2;
            code = code * 2;
            len = len + 1;
        }
        Err("deflate: invalid huffman code".to_owned())
    }
}

proof fn lemma_count_len_pos(lens: Seq<u8>, l: int, k: int, i: int)
    requires
        0 <= i < k <= lens.len(),
        lens[i] as int == l,
    ensures
        count_len(lens, l, k) > 0,
    decreases k,
{
    if i < k - 1 {
        lemma_count_len_pos(lens, l, k - 1, i);
    }
}

proof fn lemma_count_len_zero(lens: Seq<u8>, l: int, k: int)
    requires
        0 <= k <= lens.len(),
        l != 0,
        forall|i: int| 0 <= i < lens.len() ==> #[trigger] lens[i] == 0,
    ensures
        count_len(lens, l, k) == 0,
    decreases k,
{
    if k > 0 {
        lemma_count_len_zero(lens, l, k - 1);
    }
}

proof fn lemma_count_sum_mono(counts: Seq<u16>, a: int, b: int)
    requires
        1 <= a <= b,
    ensures
        count_sum(counts, a) <= count_sum(counts, b),
    decreases b - a,
{
    if a < b {
        lemma_count_sum_mono(counts, a, b - 1);
    }
}

proof fn lemma_bits_value_one(s: Seq<bool>, p: int)
    requires
        0 <= p < s.len(),
    ensures
        bv(s, p, 1) == if s[p] {
            1int
        } else {
            0int
        },
{
    lemma2_to64();
    let sub = s.subrange(p, p + 1);
    assert(sub.drop_last() =~= Seq::<bool>::empty());
    assert(bits_value(sub.drop_last()) == 0);
    assert(sub.len() == 1);
    assert(sub.last() == s[p]);
}


/// Code lengths of the fixed literal/length code (RFC 1951 §3.2.6).
pub open spec fn fixed_lit_lens() -> Seq<u8> {
    Seq::new(
        288,
        |i: int|
            if i <= 143 {
                8u8
            } else if i <= 255 {
                9u8
            } else if i <= 279 {
                7u8
            } else {
                8u8
            },
    )
}

/// Code lengths of the fixed distance code.
pub open spec fn fixed_dist_lens() -> Seq<u8> {
    Seq::new(30, |i: int| 5u8)
}

/// Decode literal/length and distance symbols from `p` until the
/// end-of-block symbol, appending to `out`: the position after the block
/// and the output, or `None` on malformed or truncated input.
pub open spec fn codes_spec(
    s: Seq<bool>,
    p: int,
    out: Seq<u8>,
    lit: (Seq<u16>, Seq<u16>),
    dist: (Seq<u16>, Seq<u16>),
) -> Option<(int, Seq<u8>)>
    decreases s.len() - p,
{
    if p < 0 || p > s.len() {
        None
    } else {
        match huff_decode(lit, s, p) {
            None => None,
            Some((sym, p1)) => {
                if p1 <= p || p1 > s.len() {
                    None
                } else if sym <= 255 {
                    codes_spec(s, p1, out.push(sym as u8), lit, dist)
                } else if sym == 256 {
                    Some((p1, out))
                } else if sym <= 285 {
                    match match_spec(s, p1, out, sym, dist) {
                        None => None,
                        Some((p4, out2)) => {
                            if p4 <= p || p4 > s.len() {
                                None
                            } else {
                                codes_spec(s, p4, out2, lit, dist)
                            }
                        },
                    }
                } else {
                    None
                }
            },
        }
    }
}

/// A length/distance pair whose length symbol `sym` was decoded, its
/// extra bits starting at `p1`: the position after it and the output with
/// the copy appended.
pub open spec fn match_spec(
    s: Seq<bool>,
    p1: int,
    out: Seq<u8>,
    sym: u16,
    dist: (Seq<u16>, Seq<u16>),
) -> Option<(int, Seq<u8>)> {
    let idx = sym - 257;
    let e = len_extra_table()[idx] as int;
    if p1 + e > s.len() {
        None
    } else {
        let len = len_base_table()[idx] as int + bv(s, p1, e);
        let p2 = p1 + e;
        match huff_decode(dist, s, p2) {
            None => None,
            Some((dsym, p3)) => {
                if dsym >= 30 {
                    None
                } else {
                    let de = dist_extra_table()[dsym as int] as int;
                    if p3 + de > s.len() {
                        None
                    } else {
                        let d = dist_base_table()[dsym as int] as int + bv(s, p3, de);
                        if d > out.len() {
                            None
                        } else {
                            Some((p3 + de, lz_copy(out, len as nat, d)))
                        }
                    }
                }
            },
        }
    }
}

/// The byte-aligned position at or after `q`.
pub open spec fn align_up(q: int) -> int {
    if q % 8 == 0 {
        q
    } else {
        q - q % 8 + 8
    }
}

/// `n` whole bytes read from the stream at `start`.
pub open spec fn stream_bytes(s: Seq<bool>, start: int, n: nat) -> Seq<u8> {
    Seq::new(n, |k: int| bv(s, start + 8 * k, 8) as u8)
}

/// A stored block whose header starts at `q` (after BFINAL/BTYPE).
pub open spec fn stored_spec(s: Seq<bool>, q: int, out: Seq<u8>) -> Option<(int, Seq<u8>)> {
    let a = align_up(q);
    if a + 32 > s.len() {
        None
    } else {
        let len = bv(s, a, 16);
        let nlen = bv(s, a + 16, 16);
        if len + nlen != 65535 {
            None
        } else if a + 32 + 8 * len > s.len() {
            None
        } else {
            Some((a + 32 + 8 * len, out + stream_bytes(s, a + 32, len as nat)))
        }
    }
}

/// The order code-length code lengths are transmitted in.
pub open spec fn clen_order() -> Seq<usize> {
    seq![16usize, 17, 18, 0, 8, 7, 9, 6, 10, 5, 11, 4, 12, 3, 13, 2, 14, 1, 15]
}

fn clen_order_at(k: usize) -> (r: usize)
    requires
        k < 19,
    ensures
        r == clen_order()[k as int],
        r < 19,
{
    let t: [usize; 19] = [16, 17, 18, 0, 8, 7, 9, 6, 10, 5, 11, 4, 12, 3, 13, 2, 14, 1, 15];
    assert(t@ =~= clen_order());
    t[k]
}

/// The code-length code lengths after reading the first `k` 3-bit fields.
pub open spec fn clen_lens_spec(s: Seq<bool>, p0: int, k: int) -> Seq<u8>
    decreases k,
{
    if k <= 0 {
        Seq::new(19, |i: int| 0u8)
    } else {
        clen_lens_spec(s, p0, k - 1).update(clen_order()[k - 1] as int, bv(s, p0 + 3 * (k - 1), 3) as u8)
    }
}

/// `lens` with `rep` entries from `i` set to `v`.
pub open spec fn fill(lens: Seq<u8>, i: int, rep: int, v: u8) -> Seq<u8> {
    Seq::new(lens.len(), |j: int| if i <= j < i + rep { v } else { lens[j] })
}

/// Read code lengths with the code-length code `clen` until `n` are
/// known (`i` of them so far).
pub open spec fn read_lengths(
    s: Seq<bool>,
    p: int,
    clen: (Seq<u16>, Seq<u16>),
    lens: Seq<u8>,
    i: int,
    n: int,
) -> Option<(int, Seq<u8>)>
    decreases n - i,
{
    if i < 0 || i >= n {
        Some((p, lens))
    } else {
        match huff_decode(clen, s, p) {
            None => None,
            Some((sym, p1)) => {
                if sym <= 15 {
                    read_lengths(s, p1, clen, lens.update(i, sym as u8), i + 1, n)
                } else if sym == 16 {
                    if i == 0 || p1 + 2 > s.len() {
                        None
                    } else {
                        let rep = 3 + bv(s, p1, 2);
                        if i + rep > n {
                            None
                        } else {
                            read_lengths(s, p1 + 2, clen, fill(lens, i, rep, lens[i - 1]), i + rep, n)
                        }
                    }
                } else if sym == 17 {
                    if p1 + 3 > s.len() {
                        None
                    } else {
                        let rep = 3 + bv(s, p1, 3);
                        if i + rep > n {
                            None
                        } else {
                            read_lengths(s, p1 + 3, clen, lens, i + rep, n)
                        }
                    }
                } else if sym == 18 {
                    if p1 + 7 > s.len() {
                        None
                    } else {
                        let rep = 11 + bv(s, p1, 7);
                        if i + rep > n {
                            None
                        } else {
                            read_lengths(s, p1 + 7, clen, lens, i + rep, n)
                        }
                    }
                } else {
                    None
                }
            },
        }
    }
}

/// The literal/length and distance tables of a dynamic block whose header
/// starts at `p`, and the position after them.
pub open spec fn dynamic_spec(s: Seq<bool>, p: int) -> Option<
    (int, (Seq<u16>, Seq<u16>), (Seq<u16>, Seq<u16>)),
> {
    if p + 14 > s.len() {
        None
    } else {
        let hlit = bv(s, p, 5) + 257;
        let hdist = bv(s, p + 5, 5) + 1;
        let hclen = bv(s, p + 10, 4) + 4;
        let p0 = p + 14;
        if p0 + 3 * hclen > s.len() {
            None
        } else {
            match huffman_spec(clen_lens_spec(s, p0, hclen)) {
                None => None,
                Some(clen) => match read_lengths(
                    s,
                    p0 + 3 * hclen,
                    clen,
                    Seq::new((hlit + hdist) as nat, |j: int| 0u8),
                    0,
                    hlit + hdist,
                ) {
                    None => None,
                    Some((p2, lens)) => match huffman_spec(lens.take(hlit)) {
                        None => None,
                        Some(lit) => match huffman_spec(lens.skip(hlit)) {
                            None => None,
                            Some(dist) => Some((p2, lit, dist)),
                        },
                    },
                },
            }
        }
    }
}

/// Decode DEFLATE blocks starting at `p` until a final block: the
/// position after it and the output.
pub open spec fn inflate_spec(s: Seq<bool>, p: int, out: Seq<u8>) -> Option<(int, Seq<u8>)>
    decreases s.len() - p,
{
    if p < 0 || p + 3 > s.len() {
        None
    } else {
        let bfinal = bv(s, p, 1);
        let btype = bv(s, p + 1, 2);
        let q = p + 3;
        let r = if btype == 0 {
            stored_spec(s, q, out)
        } else if btype == 1 {
            match huffman_spec(fixed_lit_lens()) {
                None => None,
                Some(l) => match huffman_spec(fixed_dist_lens()) {
                    None => None,
                    Some(d) => codes_spec(s, q, out, l, d),
                },
            }
        } else if btype == 2 {
            match dynamic_spec(s, q) {
                None => None,
                Some((q2, l, d)) => codes_spec(s, q2, out, l, d),
            }
        } else {
            None
        };
        match r {
            None => None,
            Some((q2, out2)) => {
                if bfinal == 1 {
                    Some((q2, out2))
                } else if q2 <= p || q2 > s.len() {
                    None
                } else {
                    inflate_spec(s, q2, out2)
                }
            },
        }
    }
}


/// The message for input that ends inside a block.
pub open spec fn msg_eof() -> Seq<char> {
    "deflate: unexpected end of input"@
}

/// The message when a code-length list cannot be made into a code.
pub open spec fn huffman_err(lens: Seq<u8>) -> Seq<char> {
    if exists|i: int| 0 <= i < lens.len() && #[trigger] lens[i] > 15 {
        "deflate: code length > 15"@
    } else {
        "deflate: empty code"@
    }
}

/// The message when decoding stops at length `len` (see `huff_step`).
pub open spec fn huff_step_err(
    counts: Seq<u16>,
    symbols: Seq<u16>,
    s: Seq<bool>,
    p: int,
    len: int,
    code: int,
    first: int,
    index: int,
) -> Seq<char>
    decreases 16 - len,
{
    if len >= 16 || len < 1 {
        "deflate: invalid huffman code"@
    } else if p < 0 || p >= s.len() {
        msg_eof()
    } else {
        let c = code + if s[p] {
            1int
        } else {
            0int
        };
        let count = counts[len] as int;
        if c < first + count {
            "deflate: invalid huffman code"@
        } else {
            huff_step_err(
                counts,
                symbols,
                s,
                p + 1,
                len + 1,
                c * 2,
                (first + count) * 2,
                index + count,
            )
        }
    }
}

/// The message when no symbol can be decoded at `p`.
pub open spec fn huff_err(t: (Seq<u16>, Seq<u16>), s: Seq<bool>, p: int) -> Seq<char> {
    huff_step_err(t.0, t.1, s, p, 1, 0, 0, 0)
}

/// The message when a stored block whose header ends at `q` is rejected.
pub open spec fn stored_err(s: Seq<bool>, q: int) -> Seq<char> {
    let a = align_up(q);
    if a + 32 > s.len() {
        msg_eof()
    } else if bv(s, a, 16) + bv(s, a + 16, 16) != 65535 {
        "deflate: bad stored length"@
    } else {
        msg_eof()
    }
}

/// The message when a match whose length symbol `sym` was decoded is
/// rejected.
pub open spec fn match_err(
    s: Seq<bool>,
    p1: int,
    out: Seq<u8>,
    sym: u16,
    dist: (Seq<u16>, Seq<u16>),
) -> Seq<char> {
    let idx = sym - 257;
    let e = len_extra_table()[idx] as int;
    if p1 + e > s.len() {
        msg_eof()
    } else {
        let p2 = p1 + e;
        match huff_decode(dist, s, p2) {
            None => huff_err(dist, s, p2),
            Some((dsym, p3)) => {
                if dsym >= 30 {
                    "deflate: bad distance symbol"@
                } else {
                    let de = dist_extra_table()[dsym as int] as int;
                    if p3 + de > s.len() {
                        msg_eof()
                    } else {
                        "deflate: distance too far back"@
                    }
                }
            },
        }
    }
}

/// The message when the symbols of a block from `p` are rejected.
pub open spec fn codes_err(
    s: Seq<bool>,
    p: int,
    out: Seq<u8>,
    lit: (Seq<u16>, Seq<u16>),
    dist: (Seq<u16>, Seq<u16>),
) -> Seq<char>
    decreases s.len() - p,
{
    if p < 0 || p > s.len() {
        msg_eof()
    } else {
        match huff_decode(lit, s, p) {
            None => huff_err(lit, s, p),
            Some((sym, p1)) => {
                if p1 <= p || p1 > s.len() {
                    msg_eof()
                } else if sym <= 255 {
                    codes_err(s, p1, out.push(sym as u8), lit, dist)
                } else if sym == 256 {
                    msg_eof()
                } else if sym <= 285 {
                    match match_spec(s, p1, out, sym, dist) {
                        None => match_err(s, p1, out, sym, dist),
                        Some((p4, out2)) => {
                            if p4 <= p || p4 > s.len() {
                                msg_eof()
                            } else {
                                codes_err(s, p4, out2, lit, dist)
                            }
                        },
                    }
                } else {
                    "deflate: bad literal symbol"@
                }
            },
        }
    }
}

/// The message when code lengths cannot be read (see `read_lengths`).
pub open spec fn read_lengths_err(
    s: Seq<bool>,
    p: int,
    clen: (Seq<u16>, Seq<u16>),
    lens: Seq<u8>,
    i: int,
    n: int,
) -> Seq<char>
    decreases n - i,
{
    if i < 0 || i >= n {
        msg_eof()
    } else {
        match huff_decode(clen, s, p) {
            None => huff_err(clen, s, p),
            Some((sym, p1)) => {
                if sym <= 15 {
                    read_lengths_err(s, p1, clen, lens.update(i, sym as u8), i + 1, n)
                } else if sym == 16 {
                    if i == 0 {
                        "deflate: repeat with no previous"@
                    } else if p1 + 2 > s.len() {
                        msg_eof()
                    } else {
                        let rep = 3 + bv(s, p1, 2);
                        if i + rep > n {
                            "deflate: repeat overflow"@
                        } else {
                            read_lengths_err(s, p1 + 2, clen, fill(lens, i, rep, lens[i - 1]), i + rep, n)
                        }
                    }
                } else if sym == 17 || sym == 18 {
                    let w: int = if sym == 17 {
                        3
                    } else {
                        7
                    };
                    let base: int = if sym == 17 {
                        3
                    } else {
                        11
                    };
                    if p1 + w > s.len() {
                        msg_eof()
                    } else {
                        let rep = base + bv(s, p1, w);
                        if i + rep > n {
                            "deflate: code-length overflow"@
                        } else {
                            read_lengths_err(s, p1 + w, clen, lens, i + rep, n)
                        }
                    }
                } else {
                    "deflate: bad code-length symbol"@
                }
            },
        }
    }
}

/// The message when the tables of a dynamic block cannot be read.
pub open spec fn dynamic_err(s: Seq<bool>, p: int) -> Seq<char> {
    if p + 14 > s.len() {
        msg_eof()
    } else {
        let hlit = bv(s, p, 5) + 257;
        let hdist = bv(s, p + 5, 5) + 1;
        let hclen = bv(s, p + 10, 4) + 4;
        let p0 = p + 14;
        if p0 + 3 * hclen > s.len() {
            msg_eof()
        } else {
            let cl = clen_lens_spec(s, p0, hclen);
            match huffman_spec(cl) {
                None => huffman_err(cl),
                Some(clen) => {
                    let zero = Seq::new((hlit + hdist) as nat, |j: int| 0u8);
                    match read_lengths(s, p0 + 3 * hclen, clen, zero, 0, hlit + hdist) {
                        None => read_lengths_err(s, p0 + 3 * hclen, clen, zero, 0, hlit + hdist),
                        Some((p2, lens)) => if huffman_spec(lens.take(hlit)) is None {
                            huffman_err(lens.take(hlit))
                        } else {
                            huffman_err(lens.skip(hlit))
                        },
                    }
                },
            }
        }
    }
}

/// The message `inflate` returns for a stream it rejects, reading blocks
/// from `p`.
pub open spec fn inflate_err(s: Seq<bool>, p: int, out: Seq<u8>) -> Seq<char>
    decreases s.len() - p,
{
    if p < 0 || p + 3 > s.len() {
        msg_eof()
    } else {
        let bfinal = bv(s, p, 1);
        let btype = bv(s, p + 1, 2);
        let q = p + 3;
        if btype == 0 {
            match stored_spec(s, q, out) {
                None => stored_err(s, q),
                Some((q2, out2)) => if bfinal != 1 && p < q2 <= s.len() {
                    inflate_err(s, q2, out2)
                } else {
                    msg_eof()
                },
            }
        } else if btype == 1 || btype == 2 {
            let tables = if btype == 1 {
                match (huffman_spec(fixed_lit_lens()), huffman_spec(fixed_dist_lens())) {
                    (Some(l), Some(d)) => Some((q, l, d)),
                    _ => None,
                }
            } else {
                dynamic_spec(s, q)
            };
            match tables {
                None => if btype == 1 {
                    huffman_err(fixed_lit_lens())
                } else {
                    dynamic_err(s, q)
                },
                Some((q1, l, d)) => match codes_spec(s, q1, out, l, d) {
                    None => codes_err(s, q1, out, l, d),
                    Some((q2, out2)) => if bfinal != 1 && p < q2 <= s.len() {
                        inflate_err(s, q2, out2)
                    } else {
                        msg_eof()
                    },
                },
            }
        } else {
            "deflate: reserved block type"@
        }
    }
}

proof fn lemma_lz_copy_len(out: Seq<u8>, len: nat, d: int)
    ensures
        lz_copy(out, len, d).len() == out.len() + len,
    decreases len,
{
    if len > 0 {
        lemma_lz_copy_len(out, (len - 1) as nat, d);
    }
}

/// Append `len` bytes copied from `d` back.
fn copy_back(out: &mut Vec<u8>, len: usize, d: usize)
    requires
        1 <= d <= old(out)@.len(),
    ensures
        final(out)@ == lz_copy(old(out)@, len as nat, d as int),
{
    let start = out.len() - d;
    let mut k: usize = 0;
    while k < len
        invariant
            k <= len,
            start + d == old(out)@.len(),
            1 <= d,
            out@ == lz_copy(old(out)@, k as nat, d as int),
            out@.len() == old(out)@.len() + k,
        decreases len - k,
    {
        proof {
            lemma_lz_copy_len(old(out)@, k as nat, d as int);
        }
        let cur = out.len();
        assert(start + k < cur);
        let b = out[start + k];
        out.push(b);
        k = k + 1;
    }
}

/// Read the extra bits and distance of a match and append the copy.
fn copy_match(r: &mut BitReader, out: &mut Vec<u8>, sym: u16, dist: &Huffman) -> (res: Result<
    (),
    String,
>)
    requires
        old(r).inv(),
        dist.inv(),
        257 <= sym <= 285,
    ensures
        final(r).inv(),
        final(r).bytes() == old(r).bytes(),
        final(r).stream() == old(r).stream(),
        res is Ok <==> match_spec(old(r).stream(), old(r).bitpos(), old(out)@, sym, dist.tables())
            is Some,
        res is Ok ==> match_spec(old(r).stream(), old(r).bitpos(), old(out)@, sym, dist.tables())
            == Some((final(r).bitpos(), final(out)@)),
        res is Ok ==> final(r).bitpos() >= old(r).bitpos(),
        res matches Err(e) ==> e@ == match_err(
            old(r).stream(),
            old(r).bitpos(),
            old(out)@,
            sym,
            dist.tables(),
        ),
{
    proof {
        lemma2_to64();
        r.lemma_bitpos_bound();
    }
    let idx = (sym - 257) as usize;
    let e = len_extra(idx);
    let extra = r.bits(e as u32)?;
    proof {
        lemma_pow2_strictly_increases(e as nat, 16);
    }
    let len = len_base(idx) as usize + extra as usize;
    let dsym = dist.decode(r)?;
    if dsym >= 30 {
        return Err("deflate: bad distance symbol".to_owned());
    }
    let de = dist_extra(dsym as usize);
    let dextra = r.bits(de as u32)?;
    proof {
        lemma_pow2_strictly_increases(de as nat, 16);
    }
    let d = dist_base(dsym as usize) as usize + dextra as usize;
    if d > out.len() {
        return Err("deflate: distance too far back".to_owned());
    }
    proof {
        lemma_pow2_pos(de as nat);
    }
    copy_back(out, len, d);
    Ok(())
}

/// Decode the symbols of one compressed block.
fn decode_codes(r: &mut BitReader, out: &mut Vec<u8>, lit: &Huffman, dist: &Huffman) -> (res:
    Result<(), String>)
    requires
        old(r).inv(),
        lit.inv(),
        dist.inv(),
    ensures
        final(r).inv(),
        final(r).bytes() == old(r).bytes(),
        final(r).stream() == old(r).stream(),
        res is Ok <==> codes_spec(
            old(r).stream(),
            old(r).bitpos(),
            old(out)@,
            lit.tables(),
            dist.tables(),
        ) is Some,
        res is Ok ==> codes_spec(
            old(r).stream(),
            old(r).bitpos(),
            old(out)@,
            lit.tables(),
            dist.tables(),
        ) == Some((final(r).bitpos(), final(out)@)),
        res is Ok ==> final(r).bitpos() >= old(r).bitpos(),
        res matches Err(e) ==> e@ == codes_err(
            old(r).stream(),
            old(r).bitpos(),
            old(out)@,
            lit.tables(),
            dist.tables(),
        ),
{
    let ghost s = r.stream();
    let ghost goal = codes_spec(s, r.bitpos(), out@, lit.tables(), dist.tables());
    let ghost goal_err = codes_err(s, r.bitpos(), out@, lit.tables(), dist.tables());
    proof {
        r.lemma_bitpos_bound();
    }
    loop
        invariant
            r.inv(),
            lit.inv(),
            dist.inv(),
            r.bytes() == old(r).bytes(),
            r.stream() == s,
            s == old(r).stream(),
            goal == codes_spec(
                old(r).stream(),
                old(r).bitpos(),
                old(out)@,
                lit.tables(),
                dist.tables(),
            ),
            goal == codes_spec(s, r.bitpos(), out@, lit.tables(), dist.tables()),
            goal_err == codes_err(
                old(r).stream(),
                old(r).bitpos(),
                old(out)@,
                lit.tables(),
                dist.tables(),
            ),
            goal_err == codes_err(s, r.bitpos(), out@, lit.tables(), dist.tables()),
            r.bitpos() >= old(r).bitpos(),
        decreases s.len() - r.bitpos(),
    {
        let ghost p = r.bitpos();
        let ghost o = out@;
        proof {
            r.lemma_bitpos_bound();
        }
        let sym = lit.decode(r)?;
        proof {
            r.lemma_bitpos_bound();
        }
        if sym <= 255 {
            out.push(sym as u8);
        } else if sym == 256 {
            return Ok(());
        } else if sym <= 285 {
            copy_match(r, out, sym, dist)?;
            proof {
                r.lemma_bitpos_bound();
            }
        } else {
            return Err("deflate: bad literal symbol".to_owned());
        }
    }
}

/// Copy a stored block's bytes.
fn stored_block(r: &mut BitReader, out: &mut Vec<u8>) -> (res: Result<(), String>)
    requires
        old(r).inv(),
    ensures
        final(r).inv(),
        final(r).bytes() == old(r).bytes(),
        final(r).stream() == old(r).stream(),
        res is Ok <==> stored_spec(old(r).stream(), old(r).bitpos(), old(out)@) is Some,
        res is Ok ==> stored_spec(old(r).stream(), old(r).bitpos(), old(out)@) == Some(
            (final(r).bitpos(), final(out)@),
        ),
        res is Ok ==> final(r).bitpos() >= old(r).bitpos(),
        res matches Err(e) ==> e@ == stored_err(old(r).stream(), old(r).bitpos()),
{
    let ghost s = r.stream();
    r.align();
    let ghost a = r.bitpos();
    proof {
        lemma2_to64();
    }
    let len = r.bits(16)?;
    let nlen = r.bits(16)?;
    if len + nlen != 0xFFFF {
        return Err("deflate: bad stored length".to_owned());
    }
    let ghost start = r.bitpos();
    let mut k: u32 = 0;
    while k < len
        invariant
            r.inv(),
            r.bytes() == old(r).bytes(),
            r.stream() == s,
            s == old(r).stream(),
            k <= len,
            len < 65536,
            r.bitpos() == start + 8 * k,
            start == a + 32,
            a == align_up(old(r).bitpos()),
            a >= old(r).bitpos(),
            len as int == bv(s, a, 16),
            nlen as int == bv(s, a + 16, 16),
            len + nlen == 0xFFFF,
            out@ == old(out)@ + stream_bytes(s, start, k as nat),
        decreases len - k,
    {
        proof {
            r.lemma_bitpos_bound();
        }
        let b = match r.bits(8) {
            Ok(b) => b,
            Err(e) => {
                assert(start + 8 * len > s.len());
                return Err(e);
            },
        };
        proof {
            lemma2_to64();
        }
        out.push(b as u8);
        assert(out@ =~= old(out)@ + stream_bytes(s, start, (k + 1) as nat));
        k = k + 1;
    }
    proof {
        r.lemma_bitpos_bound();
    }
    Ok(())
}


/// Set `rep` lengths from `i` to `prev`; the index after them.
fn fill_repeat(lens: &mut Vec<u8>, i: usize, rep: usize, prev: u8) -> (res: Result<usize, String>)
    requires
        rep <= 6,
        i <= old(lens)@.len(),
    ensures
        final(lens)@.len() == old(lens)@.len(),
        res is Ok <==> i + rep <= old(lens)@.len(),
        res matches Err(e) ==> e@ == "deflate: repeat overflow"@,
        res matches Ok(j) ==> j == i + rep && final(lens)@ == fill(
            old(lens)@,
            i as int,
            rep as int,
            prev,
        ),
{
    let n = lens.len();
    let mut j = i;
    let mut k: usize = 0;
    assert(lens@ =~= fill(old(lens)@, i as int, 0, prev));
    while k < rep
        invariant
            j == i + k,
            j <= n,
            k <= rep,
            rep <= 6,
            n == lens@.len(),
            n == old(lens)@.len(),
            lens@ == fill(old(lens)@, i as int, k as int, prev),
        decreases rep - k,
    {
        if j >= n {
            return Err("deflate: repeat overflow".to_owned());
        }
        lens.set(j, prev);
        j = j + 1;
        k = k + 1;
        assert(lens@ =~= fill(old(lens)@, i as int, k as int, prev));
    }
    Ok(j)
}

/// Read the code lengths of a dynamic block.
fn read_code_lengths(r: &mut BitReader, clen: &Huffman, n: usize) -> (res: Result<Vec<u8>, String>)
    requires
        old(r).inv(),
        clen.inv(),
        n <= 320,
    ensures
        final(r).inv(),
        final(r).bytes() == old(r).bytes(),
        final(r).stream() == old(r).stream(),
        res is Ok <==> read_lengths(
            old(r).stream(),
            old(r).bitpos(),
            clen.tables(),
            Seq::new(n as nat, |j: int| 0u8),
            0,
            n as int,
        ) is Some,
        res matches Ok(lens) ==> read_lengths(
            old(r).stream(),
            old(r).bitpos(),
            clen.tables(),
            Seq::new(n as nat, |j: int| 0u8),
            0,
            n as int,
        ) == Some((final(r).bitpos(), lens@)) && lens@.len() == n,
        res is Ok ==> final(r).bitpos() >= old(r).bitpos(),
        res matches Err(e) ==> e@ == read_lengths_err(
            old(r).stream(),
            old(r).bitpos(),
            clen.tables(),
            Seq::new(n as nat, |j: int| 0u8),
            0,
            n as int,
        ),
{
    let ghost s = r.stream();
    let mut lens: Vec<u8> = vec![0u8; n];
    let ghost goal = read_lengths(s, r.bitpos(), clen.tables(), lens@, 0, n as int);
    let ghost goal_err = read_lengths_err(s, r.bitpos(), clen.tables(), lens@, 0, n as int);
    assert(lens@ =~= Seq::new(n as nat, |j: int| 0u8));
    let mut i: usize = 0;
    proof {
        lemma2_to64();
    }
    while i < n
        invariant
            r.inv(),
            clen.inv(),
            r.bytes() == old(r).bytes(),
            r.stream() == s,
            s == old(r).stream(),
            i <= n,
            n <= 320,
            lens@.len() == n,
            goal == read_lengths(
                old(r).stream(),
                old(r).bitpos(),
                clen.tables(),
                Seq::new(n as nat, |j: int| 0u8),
                0,
                n as int,
            ),
            goal == read_lengths(s, r.bitpos(), clen.tables(), lens@, i as int, n as int),
            goal_err == read_lengths_err(
                old(r).stream(),
                old(r).bitpos(),
                clen.tables(),
                Seq::new(n as nat, |j: int| 0u8),
                0,
                n as int,
            ),
            goal_err == read_lengths_err(s, r.bitpos(), clen.tables(), lens@, i as int, n as int),
            r.bitpos() >= old(r).bitpos(),
        decreases n - i,
    {
        proof {
            lemma2_to64();
            r.lemma_bitpos_bound();
        }
        let sym = clen.decode(r)?;
        proof {
            r.lemma_bitpos_bound();
        }
        if sym <= 15 {
            lens.set(i, sym as u8);
            i = i + 1;
        } else if sym == 16 {
            if i == 0 {
                return Err("deflate: repeat with no previous".to_owned());
            }
            let prev = lens[i - 1];
            let rep = 3 + r.bits(2)? as usize;
            i = fill_repeat(&mut lens, i, rep, prev)?;
        } else if sym == 17 {
            let rep = 3 + r.bits(3)? as usize;
            i = i + rep;
            if i > n {
                return Err("deflate: code-length overflow".to_owned());
            }
        } else if sym == 18 {
            let rep = 11 + r.bits(7)? as usize;
            i = i + rep;
            if i > n {
                return Err("deflate: code-length overflow".to_owned());
            }
        } else {
            return Err("deflate: bad code-length symbol".to_owned());
        }
    }
    Ok(lens)
}

/// Read the code definitions of a dynamic block and build its tables.
fn read_dynamic_tables(r: &mut BitReader) -> (res: Result<(Huffman, Huffman), String>)
    requires
        old(r).inv(),
    ensures
        final(r).inv(),
        final(r).bytes() == old(r).bytes(),
        final(r).stream() == old(r).stream(),
        res is Ok <==> dynamic_spec(old(r).stream(), old(r).bitpos()) is Some,
        res matches Ok(t) ==> t.0.inv() && t.1.inv() && dynamic_spec(
            old(r).stream(),
            old(r).bitpos(),
        ) == Some((final(r).bitpos(), t.0.tables(), t.1.tables())),
        res is Ok ==> final(r).bitpos() >= old(r).bitpos(),
        res matches Err(e) ==> e@ == dynamic_err(old(r).stream(), old(r).bitpos()),
{
    let ghost s = r.stream();
    let ghost p = r.bitpos();
    proof {
        lemma2_to64();
        r.lemma_bitpos_bound();
    }
    let hlit = r.bits(5)? as usize + 257;
    let hdist = r.bits(5)? as usize + 1;
    let hclen = r.bits(4)? as usize + 4;
    let ghost p0 = r.bitpos();
    let mut clen_lens: Vec<u8> = vec![0u8; 19];
    assert(clen_lens@ =~= clen_lens_spec(s, p0, 0));
    let mut k: usize = 0;
    while k < hclen
        invariant
            r.inv(),
            r.bytes() == old(r).bytes(),
            r.stream() == s,
            k <= hclen,
            hclen <= 19,
            clen_lens@.len() == 19,
            r.bitpos() == p0 + 3 * k,
            clen_lens@ == clen_lens_spec(s, p0, k as int),
            s == old(r).stream(),
            p == old(r).bitpos(),
            p0 == p + 14,
            hlit as int == bv(s, p, 5) + 257,
            hdist as int == bv(s, p + 5, 5) + 1,
            hclen as int == bv(s, p + 10, 4) + 4,
        decreases hclen - k,
    {
        proof {
            lemma2_to64();
            r.lemma_bitpos_bound();
        }
        let v = match r.bits(3) {
            Ok(v) => v,
            Err(e) => {
                return Err(e);
            },
        };
        let at = clen_order_at(k);
        clen_lens.set(at, v as u8);
        k = k + 1;
    }
    proof {
        r.lemma_bitpos_bound();
        assert(clen_lens@ == clen_lens_spec(s, p0, hclen as int));
    }
    let clen = Huffman::new(clen_lens.as_slice())?;
    let n = hlit + hdist;
    let lens = read_code_lengths(r, &clen, n)?;
    let lit = Huffman::new(&lens.as_slice()[0..hlit])?;
    assert(lens@.subrange(0, hlit as int) =~= lens@.take(hlit as int));
    let dist = Huffman::new(&lens.as_slice()[hlit..n])?;
    assert(lens@.subrange(hlit as int, n as int) =~= lens@.skip(hlit as int));
    proof {
        r.lemma_bitpos_bound();
    }
    Ok((lit, dist))
}

fn fixed_tables() -> (res: Result<(Huffman, Huffman), String>)
    ensures
        res is Ok <==> (huffman_spec(fixed_lit_lens()) is Some && huffman_spec(fixed_dist_lens())
            is Some),
        res matches Ok(t) ==> t.0.inv() && t.1.inv() && Some(t.0.tables()) == huffman_spec(
            fixed_lit_lens(),
        ) && Some(t.1.tables()) == huffman_spec(fixed_dist_lens()),
        res matches Err(e) ==> e@ == huffman_err(fixed_lit_lens()),
{
    let mut lit_lens: Vec<u8> = Vec::new();
    let mut i: usize = 0;
    while i < 288
        invariant
            i <= 288,
            lit_lens@ == fixed_lit_lens().take(i as int),
        decreases 288 - i,
    {
        let l: u8 = if i <= 143 {
            8
        } else if i <= 255 {
            9
        } else if i <= 279 {
            7
        } else {
            8
        };
        lit_lens.push(l);
        i = i + 1;
        assert(lit_lens@ =~= fixed_lit_lens().take(i as int));
    }
    assert(lit_lens@ =~= fixed_lit_lens());
    let dist_lens: Vec<u8> = vec![5u8; 30];
    assert(dist_lens@ =~= fixed_dist_lens());
    let lit = Huffman::new(lit_lens.as_slice())?;
    let dist = Huffman::new(dist_lens.as_slice())?;
    Ok((lit, dist))
}

/// Decode DEFLATE blocks until the final one.
pub fn inflate(r: &mut BitReader, out: &mut Vec<u8>) -> (res: Result<(), String>)
    requires
        old(r).inv(),
    ensures
        final(r).inv(),
        final(r).bytes() == old(r).bytes(),
        res is Ok <==> inflate_spec(old(r).stream(), old(r).bitpos(), old(out)@) is Some,
        res is Ok ==> inflate_spec(old(r).stream(), old(r).bitpos(), old(out)@) == Some(
            (final(r).bitpos(), final(out)@),
        ),
        res matches Err(e) ==> e@ == inflate_err(old(r).stream(), old(r).bitpos(), old(out)@),
{
    let ghost s = r.stream();
    let ghost goal = inflate_spec(s, r.bitpos(), out@);
    let ghost goal_err = inflate_err(s, r.bitpos(), out@);
    proof {
        r.lemma_bitpos_bound();
    }
    loop
        invariant
            r.inv(),
            r.bytes() == old(r).bytes(),
            r.stream() == s,
            s == old(r).stream(),
            goal == inflate_spec(old(r).stream(), old(r).bitpos(), old(out)@),
            goal == inflate_spec(s, r.bitpos(), out@),
            goal_err == inflate_err(old(r).stream(), old(r).bitpos(), old(out)@),
            goal_err == inflate_err(s, r.bitpos(), out@),
        decreases s.len() - r.bitpos(),
    {
        let ghost p = r.bitpos();
        proof {
            lemma2_to64();
            r.lemma_bitpos_bound();
        }
        let bfinal = r.bits(1)?;
        let btype = r.bits(2)?;
        if btype == 0 {
            stored_block(r, out)?;
        } else if btype == 1 || btype == 2 {
            let (lit, dist) = if btype == 1 {
                fixed_tables()?
            } else {
                read_dynamic_tables(r)?
            };
            decode_codes(r, out, &lit, &dist)?;
        } else {
            return Err("deflate: reserved block type".to_owned());
        }
        proof {
            r.lemma_bitpos_bound();
        }
        if bfinal == 1 {
            return Ok(());
        }
    }
}

} // verus!
