use vstd::arithmetic::power2::*;
use vstd::prelude::*;

verus! {

/// The low `n` bits of `v`, least significant first.
pub open spec fn lsb_bits(v: int, n: nat) -> Seq<bool>
    decreases n,
{
    if n == 0 {
        Seq::empty()
    } else {
        seq![v % 2 == 1] + lsb_bits(v / 2, (n - 1) as nat)
    }
}

/// The low `n` bits of `v`, most significant first (how DEFLATE packs
/// Huffman codes).
pub open spec fn msb_bits(v: int, n: nat) -> Seq<bool>
    decreases n,
{
    if n == 0 {
        Seq::empty()
    } else {
        msb_bits(v / 2, (n - 1) as nat).push(v % 2 == 1)
    }
}

/// The bits of a byte sequence, each byte least significant bit first.
pub open spec fn bytes_to_bits(bytes: Seq<u8>) -> Seq<bool>
    decreases bytes.len(),
{
    if bytes.len() == 0 {
        Seq::empty()
    } else {
        bytes_to_bits(bytes.drop_last()) + lsb_bits(bytes.last() as int, 8)
    }
}

/// The unsigned value of a bit string read least significant bit first.
pub open spec fn bits_value(bits: Seq<bool>) -> nat
    decreases bits.len(),
{
    if bits.len() == 0 {
        0
    } else {
        bits_value(bits.drop_last()) + if bits.last() {
            pow2((bits.len() - 1) as nat)
        } else {
            0
        }
    }
}

/// `bits` padded with zero bits up to a whole number of bytes, packed
/// least significant bit first.
pub open spec fn pack_bits(bits: Seq<bool>) -> Seq<u8>
    decreases bits.len(),
{
    if bits.len() == 0 {
        Seq::empty()
    } else if bits.len() <= 8 {
        seq![bits_value(bits) as u8]
    } else {
        seq![bits_value(bits.take(8)) as u8] + pack_bits(bits.skip(8))
    }
}

pub proof fn lemma_lsb_bits_len(v: int, n: nat)
    ensures
        lsb_bits(v, n).len() == n,
    decreases n,
{
    if n > 0 {
        lemma_lsb_bits_len(v / 2, (n - 1) as nat);
    }
}

pub proof fn lemma_msb_bits_len(v: int, n: nat)
    ensures
        msb_bits(v, n).len() == n,
    decreases n,
{
    if n > 0 {
        lemma_msb_bits_len(v / 2, (n - 1) as nat);
    }
}

pub proof fn lemma_bytes_to_bits_len(bytes: Seq<u8>)
    ensures
        bytes_to_bits(bytes).len() == 8 * bytes.len(),
    decreases bytes.len(),
{
    if bytes.len() > 0 {
        lemma_bytes_to_bits_len(bytes.drop_last());
        lemma_lsb_bits_len(bytes.last() as int, 8);
    }
}

/// Setting bit `k` of a value below `2^k` appends that bit.
pub proof fn lemma_lsb_bits_add_top(c: int, k: nat, t: int)
    requires
        0 <= c < pow2(k),
        t == 0 || t == 1,
    ensures
        lsb_bits(c + pow2(k) * t, k + 1) == lsb_bits(c, k).push(t == 1),
    decreases k,
{
    if k == 0 {
        assert(pow2(0) == 1) by {
            lemma2_to64();
        }
        assert(c == 0);
        assert(c + pow2(k) * t == t);
        assert(lsb_bits(t / 2, 0) =~= Seq::<bool>::empty());
        assert(lsb_bits(t, 1) =~= seq![t % 2 == 1] + lsb_bits(t / 2, 0));
        assert(lsb_bits(c + pow2(k) * t, 1) =~= seq![t == 1]);
        assert(lsb_bits(c, 0).push(t == 1) =~= seq![t == 1]);
    } else {
        lemma_pow2_unfold(k);
        let p = pow2((k - 1) as nat) as int;
        assert(pow2(k) == 2 * p);
        let x = c + pow2(k) * t;
        assert(x == c + 2 * (p * t)) by (nonlinear_arith)
            requires
                x == c + pow2(k) * t,
                pow2(k) == 2 * p,
        ;
        assert(x % 2 == c % 2);
        assert(x / 2 == c / 2 + p * t);
        assert(c / 2 < p);
        assert(c / 2 >= 0);
        lemma_lsb_bits_add_top(c / 2, (k - 1) as nat, t);
        assert(lsb_bits(x, k + 1) =~= seq![x % 2 == 1] + lsb_bits(x / 2, k));
        assert(lsb_bits(c, k) =~= seq![c % 2 == 1] + lsb_bits(c / 2, (k - 1) as nat));
        assert(lsb_bits(x, k + 1) =~= lsb_bits(c, k).push(t == 1));
    }
}

/// Bit `k` of `lsb_bits(v, n)` is bit `k` of `v`.
pub proof fn lemma_lsb_bits_index(v: int, n: nat, k: int)
    requires
        0 <= k < n,
        v >= 0,
    ensures
        lsb_bits(v, n)[k] == ((v / pow2(k as nat) as int) % 2 == 1),
    decreases n,
{
    lemma_lsb_bits_len(v, n);
    assert(lsb_bits(v, n) =~= seq![v % 2 == 1] + lsb_bits(v / 2, (n - 1) as nat));
    if k == 0 {
        assert(pow2(0) == 1) by {
            lemma2_to64();
        }
        assert(v / 1 == v);
    } else {
        lemma_lsb_bits_index(v / 2, (n - 1) as nat, k - 1);
        lemma_pow2_unfold(k as nat);
        lemma_pow2_pos((k - 1) as nat);
        assert(v / 2 / (pow2((k - 1) as nat) as int) == v / (pow2(k as nat) as int)) by {
            vstd::arithmetic::div_mod::lemma_div_denominator(v, 2, pow2((k - 1) as nat) as int);
        }
    }
}

/// A writer of a DEFLATE bit stream: bits are packed into bytes least
/// significant bit first.
pub struct BitWriter {
    out: Vec<u8>,
    bitbuf: u8,
    bitcnt: u32,
}

impl BitWriter {
    /// The internal invariant: fewer than eight pending bits, and the
    /// pending value fits in them.
    pub closed spec fn inv(&self) -> bool {
        &&& self.bitcnt < 8
        &&& (self.bitbuf as int) < pow2(self.bitcnt as nat)
    }

    /// Every bit written so far, in order.
    pub closed spec fn written(&self) -> Seq<bool> {
        bytes_to_bits(self.out@) + lsb_bits(self.bitbuf as int, self.bitcnt as nat)
    }

    pub fn new() -> (w: Self)
        ensures
            w.inv(),
            w.written() == Seq::<bool>::empty(),
    {
        proof {
            lemma2_to64();
        }
        let w = BitWriter { out: Vec::new(), bitbuf: 0, bitcnt: 0 };
        assert(w.written() =~= Seq::<bool>::empty());
        w
    }

    fn put_bit(&mut self, bit: bool)
        requires
            old(self).inv(),
        ensures
            final(self).inv(),
            final(self).written() == old(self).written().push(bit),
    {
        let ghost old_bits = self.written();
        let t: u8 = if bit {
            1
        } else {
            0
        };
        proof {
            lemma_u8_pow2(self.bitcnt as nat);
            lemma_lsb_bits_add_top(self.bitbuf as int, self.bitcnt as nat, t as int);
            lemma_pow2_unfold((self.bitcnt + 1) as nat);
            assert((self.bitbuf as int) + pow2(self.bitcnt as nat) * (t as int) < 256) by (
            nonlinear_arith)
                requires
                    (self.bitbuf as int) < pow2(self.bitcnt as nat),
                    pow2(self.bitcnt as nat) <= 128,
                    t <= 1,
            ;
            assert((self.bitbuf as int) + pow2(self.bitcnt as nat) * (t as int) < pow2(
                (self.bitcnt + 1) as nat,
            )) by (nonlinear_arith)
                requires
                    (self.bitbuf as int) < pow2(self.bitcnt as nat),
                    pow2((self.bitcnt + 1) as nat) == 2 * pow2(self.bitcnt as nat),
                    t <= 1,
            ;
        }
        let inc: u8 = shl_small(t, self.bitcnt);
        self.bitbuf = self.bitbuf + inc;
        self.bitcnt = self.bitcnt + 1;
        assert(self.written() =~= old_bits.push(bit));
        if self.bitcnt == 8 {
            let ghost before = self.out@;
            self.out.push(self.bitbuf);
            assert(self.out@.drop_last() =~= before);
            self.bitbuf = 0;
            self.bitcnt = 0;
            proof {
                lemma2_to64();
            }
            assert(self.written() =~= old_bits.push(bit));
        }
    }

    /// Write the low `n` bits of `v`, least significant first.
    pub fn bits(&mut self, v: u32, n: u32)
        requires
            old(self).inv(),
            n <= 32,
        ensures
            final(self).inv(),
            final(self).written() == old(self).written() + lsb_bits(v as int, n as nat),
    {
        let ghost start = self.written();
        let mut rest: u32 = v;
        let mut i: u32 = 0;
        while i < n
            invariant
                self.inv(),
                i <= n,
                self.written() + lsb_bits(rest as int, (n - i) as nat) == start + lsb_bits(
                    v as int,
                    n as nat,
                ),
            decreases n - i,
        {
            let ghost before = self.written();
            let ghost r = rest as int;
            let bit = rest % 2 == 1;
            self.put_bit(bit);
            rest = rest / 2;
            i = i + 1;
            assert(lsb_bits(r, (n - i + 1) as nat) =~= seq![r % 2 == 1] + lsb_bits(
                rest as int,
                (n - i) as nat,
            ));
            assert(self.written() + lsb_bits(rest as int, (n - i) as nat) =~= before + lsb_bits(
                r,
                (n - i + 1) as nat,
            ));
        }
        assert(lsb_bits(rest as int, 0) =~= Seq::<bool>::empty());
        assert(self.written() =~= self.written() + lsb_bits(rest as int, 0));
    }

    /// Write an `n`-bit Huffman code, most significant bit first.
    pub fn huff(&mut self, code: u32, n: u32)
        requires
            old(self).inv(),
            n <= 31,
        ensures
            final(self).inv(),
            final(self).written() == old(self).written() + msb_bits(code as int, n as nat),
    {
        let ghost start = self.written();
        let mut i: u32 = n;
        while i > 0
            invariant
                self.inv(),
                i <= n,
                n <= 31,
                self.written() == start + msb_bits(code as int, n as nat).take((n - i) as int),
            decreases i,
        {
            let ghost before = self.written();
            i = i - 1;
            proof {
                vstd::bits::lemma_u32_shr_is_div(code, i);
            }
            let bit = (code >> i) % 2 == 1;
            self.put_bit(bit);
            proof {
                lemma_msb_bits_index(code as int, n as nat, (n - 1 - i) as int);
                lemma_msb_bits_len(code as int, n as nat);
            }
            assert(msb_bits(code as int, n as nat).take((n - i) as int) =~= msb_bits(
                code as int,
                n as nat,
            ).take((n - i - 1) as int).push(bit));
        }
        proof {
            lemma_msb_bits_len(code as int, n as nat);
        }
        assert(msb_bits(code as int, n as nat).take(n as int) =~= msb_bits(code as int, n as nat));
    }

    /// Pad the pending bits with zeros to the next byte boundary.
    fn align(&mut self)
        requires
            old(self).inv(),
        ensures
            final(self).inv(),
            final(self).bitcnt == 0,
            final(self).out@ == pack_bits(old(self).written()),
    {
        proof {
            lemma_pack_bits_aligned(self.out@, self.bitbuf, self.bitcnt as nat);
        }
        if self.bitcnt > 0 {
            self.out.push(self.bitbuf);
            self.bitbuf = 0;
            self.bitcnt = 0;
        }
        proof {
            lemma2_to64();
        }
    }

    /// Flush the pending bits (zero padded) and return the bytes.
    pub fn finish(self) -> (out: Vec<u8>)
        requires
            self.inv(),
        ensures
            out@ == pack_bits(self.written()),
    {
        let mut w = self;
        w.align();
        w.out
    }
}

proof fn lemma_u8_pow2(k: nat)
    requires
        k < 8,
    ensures
        pow2(k) <= 128,
        pow2(k) > 0,
{
    lemma2_to64();
    if k == 0 {
    } else if k == 1 {
    } else if k == 2 {
    } else if k == 3 {
    } else if k == 4 {
    } else if k == 5 {
    } else if k == 6 {
    } else {
    }
}

/// `t << k` for a single bit `t` and `k < 8`, as arithmetic.
fn shl_small(t: u8, k: u32) -> (r: u8)
    requires
        t <= 1,
        k < 8,
    ensures
        r as int == pow2(k as nat) * (t as int),
{
    proof {
        lemma2_to64();
    }
    let p: u8 = if k == 0 {
        1
    } else if k == 1 {
        2
    } else if k == 2 {
        4
    } else if k == 3 {
        8
    } else if k == 4 {
        16
    } else if k == 5 {
        32
    } else if k == 6 {
        64
    } else {
        128
    };
    if t == 1 {
        p
    } else {
        0
    }
}

/// Bit `k` (0-based, from the front) of `msb_bits(v, n)` is bit `n-1-k` of `v`.
pub proof fn lemma_msb_bits_index(v: int, n: nat, k: int)
    requires
        0 <= k < n,
        v >= 0,
    ensures
        msb_bits(v, n)[k] == ((v / pow2((n - 1 - k) as nat) as int) % 2 == 1),
    decreases n,
{
    lemma_msb_bits_len(v, n);
    lemma_msb_bits_len(v / 2, (n - 1) as nat);
    assert(msb_bits(v, n) =~= msb_bits(v / 2, (n - 1) as nat).push(v % 2 == 1));
    if k == n - 1 {
        assert(pow2(0) == 1) by {
            lemma2_to64();
        }
        assert(v / 1 == v);
    } else {
        lemma_msb_bits_index(v / 2, (n - 1) as nat, k);
        let e = (n - 2 - k) as nat;
        lemma_pow2_unfold(e + 1);
        lemma_pow2_pos(e);
        assert(v / 2 / (pow2(e) as int) == v / (pow2(e + 1) as int)) by {
            vstd::arithmetic::div_mod::lemma_div_denominator(v, 2, pow2(e) as int);
        }
    }
}

pub proof fn lemma_bits_value_bound(bits: Seq<bool>)
    ensures
        bits_value(bits) < pow2(bits.len()),
    decreases bits.len(),
{
    if bits.len() == 0 {
        lemma2_to64();
    } else {
        lemma_bits_value_bound(bits.drop_last());
        lemma_pow2_unfold(bits.len());
    }
}

/// `bits_value` of `lsb_bits(c, k)` is `c` when `c < 2^k`.
pub proof fn lemma_bits_value_lsb(c: int, k: nat)
    requires
        0 <= c < pow2(k),
    ensures
        bits_value(lsb_bits(c, k)) == c,
    decreases k,
{
    lemma_lsb_bits_len(c, k);
    if k == 0 {
        lemma2_to64();
    } else {
        let top = (c / pow2((k - 1) as nat) as int) % 2;
        lemma_pow2_unfold(k);
        lemma_pow2_pos((k - 1) as nat);
        let p = pow2((k - 1) as nat) as int;
        let low = c % p;
        assert(c == p * (c / p) + low) by {
            vstd::arithmetic::div_mod::lemma_fundamental_div_mod(c, p);
        }
        assert(0 <= low < p) by {
            vstd::arithmetic::div_mod::lemma_mod_bound(c, p);
        }
        assert(c / p < 2) by (nonlinear_arith)
            requires
                c == p * (c / p) + low,
                0 <= low < p,
                c < 2 * p,
        ;
        assert(c / p >= 0) by {
            vstd::arithmetic::div_mod::lemma_div_pos_is_pos(c, p);
        }
        let t = c / p;
        assert(c == low + pow2((k - 1) as nat) * t) by (nonlinear_arith)
            requires
                c == p * (c / p) + low,
                t == c / p,
                p == pow2((k - 1) as nat),
        ;
        lemma_lsb_bits_add_top(low, (k - 1) as nat, t);
        lemma_bits_value_lsb(low, (k - 1) as nat);
        let s = lsb_bits(c, k);
        assert(s =~= lsb_bits(low, (k - 1) as nat).push(t == 1));
        assert(s.drop_last() =~= lsb_bits(low, (k - 1) as nat));
        assert(s.len() == k);
        assert(s.last() == (t == 1));
        if t == 1 {
            assert(c == low + p) by (nonlinear_arith)
                requires
                    c == p * (c / p) + low,
                    c / p == 1,
            ;
        } else {
            assert(t == 0);
            assert(c == low) by (nonlinear_arith)
                requires
                    c == p * (c / p) + low,
                    c / p == 0,
            ;
        }
    }
}

proof fn lemma_pack_bits_aligned(out: Seq<u8>, buf: u8, cnt: nat)
    requires
        cnt < 8,
        (buf as int) < pow2(cnt),
    ensures
        pack_bits(bytes_to_bits(out) + lsb_bits(buf as int, cnt)) == if cnt > 0 {
            out.push(buf)
        } else {
            out
        },
    decreases out.len(),
{
    lemma_lsb_bits_len(buf as int, cnt);
    if out.len() == 0 {
        assert(bytes_to_bits(out) + lsb_bits(buf as int, cnt) =~= lsb_bits(buf as int, cnt));
        if cnt > 0 {
            lemma_bits_value_lsb(buf as int, cnt);
        } else {
            assert(lsb_bits(buf as int, cnt) =~= Seq::<bool>::empty());
        }
    } else {
        let first = out[0];
        let rest = out.drop_first();
        lemma_bytes_to_bits_first(out);
        lemma_lsb_bits_len(first as int, 8);
        lemma_bytes_to_bits_len(rest);
        let all = bytes_to_bits(out) + lsb_bits(buf as int, cnt);
        assert(all =~= lsb_bits(first as int, 8) + (bytes_to_bits(rest) + lsb_bits(
            buf as int,
            cnt,
        )));
        assert(all.take(8) =~= lsb_bits(first as int, 8));
        assert(all.skip(8) =~= bytes_to_bits(rest) + lsb_bits(buf as int, cnt));
        lemma_pack_bits_aligned(rest, buf, cnt);
        lemma2_to64();
        lemma_bits_value_lsb(first as int, 8);
        if rest.len() == 0 && cnt == 0 {
            assert(all =~= lsb_bits(first as int, 8));
            assert(out =~= seq![first]);
        } else {
            assert(all.len() > 8);
        }
        if cnt > 0 {
            assert(out.push(buf) =~= seq![first] + rest.push(buf));
        } else {
            assert(out =~= seq![first] + rest);
        }
    }
}

/// `bytes_to_bits` unfolded from the front.
pub proof fn lemma_bytes_to_bits_first(bytes: Seq<u8>)
    requires
        bytes.len() > 0,
    ensures
        bytes_to_bits(bytes) == lsb_bits(bytes[0] as int, 8) + bytes_to_bits(bytes.drop_first()),
    decreases bytes.len(),
{
    if bytes.len() == 1 {
        assert(bytes.drop_last() =~= Seq::<u8>::empty());
        assert(bytes.drop_first() =~= Seq::<u8>::empty());
        assert(bytes_to_bits(bytes.drop_last()) =~= Seq::<bool>::empty());
        assert(bytes_to_bits(bytes.drop_first()) =~= Seq::<bool>::empty());
        assert(bytes.last() == bytes[0]);
        assert(bytes_to_bits(bytes) =~= lsb_bits(bytes[0] as int, 8));
    } else {
        lemma_bytes_to_bits_first(bytes.drop_last());
        assert(bytes.drop_last().drop_first() =~= bytes.drop_first().drop_last());
        assert(bytes.drop_last()[0] == bytes[0]);
        assert(bytes_to_bits(bytes) =~= lsb_bits(bytes[0] as int, 8) + bytes_to_bits(
            bytes.drop_first(),
        ));
    }
}

/// A reader of a DEFLATE bit stream over a byte slice.
pub struct BitReader<'a> {
    pub data: &'a [u8],
    pos: usize,
    bitcnt: u32,
}

impl<'a> BitReader<'a> {
    pub closed spec fn inv(&self) -> bool {
        &&& self.bitcnt < 8
        &&& self.pos <= self.data@.len()
        &&& (self.bitcnt > 0 ==> self.pos < self.data@.len())
    }

    /// The position of the next unread bit in `bytes_to_bits(data)`.
    pub closed spec fn bitpos(&self) -> int {
        8 * self.pos + self.bitcnt
    }

    /// The whole input as a bit string.
    pub closed spec fn stream(&self) -> Seq<bool> {
        bytes_to_bits(self.data@)
    }

    /// The input bytes.
    pub closed spec fn bytes(&self) -> Seq<u8> {
        self.data@
    }

    pub fn new(data: &'a [u8]) -> (r: Self)
        ensures
            r.inv(),
            r.bytes() == data@,
            r.stream() == bytes_to_bits(data@),
            r.bitpos() == 0,
    {
        BitReader { data, pos: 0, bitcnt: 0 }
    }

    pub proof fn lemma_bitpos_bound(&self)
        requires
            self.inv(),
        ensures
            0 <= self.bitpos() <= self.stream().len(),
            self.stream().len() == 8 * self.bytes().len(),
            self.stream() == bytes_to_bits(self.bytes()),
    {
        lemma_bytes_to_bits_len(self.data@);
    }

    fn read_bit(&mut self) -> (res: Option<bool>)
        requires
            old(self).inv(),
        ensures
            final(self).inv(),
            final(self).bytes() == old(self).bytes(),
            old(self).bitpos() < old(self).stream().len() ==> res == Some(
                old(self).stream()[old(self).bitpos()],
            ) && final(self).bitpos() == old(self).bitpos() + 1,
            old(self).bitpos() >= old(self).stream().len() ==> res is None,
    {
        proof {
            lemma_bytes_to_bits_len(self.data@);
        }
        if self.pos >= self.data.len() {
            return None;
        }
        let byte = self.data[self.pos];
        proof {
            vstd::bits::lemma_u8_shr_is_div(byte, self.bitcnt as u8);
            lemma_bytes_to_bits_index(self.data@, self.pos as int, self.bitcnt as int);
            lemma_lsb_bits_index(byte as int, 8, self.bitcnt as int);
        }
        let bit = (byte >> (self.bitcnt as u8)) % 2 == 1;
        if self.bitcnt == 7 {
            self.pos = self.pos + 1;
            self.bitcnt = 0;
        } else {
            self.bitcnt = self.bitcnt + 1;
        }
        Some(bit)
    }

    /// Read `n` bits, least significant first.
    pub fn bits(&mut self, n: u32) -> (res: Result<u32, String>)
        requires
            old(self).inv(),
            n <= 16,
        ensures
            final(self).inv(),
            final(self).bytes() == old(self).bytes(),
            final(self).stream() == old(self).stream(),
            res is Ok <==> old(self).bitpos() + n <= old(self).stream().len(),
            res matches Err(e) ==> e@ == crate::inflate::msg_eof(),
            res matches Ok(v) ==> v as int == bits_value(
                old(self).stream().subrange(old(self).bitpos(), old(self).bitpos() + n),
            ) && final(self).bitpos() == old(self).bitpos() + n && (v as int) < pow2(n as nat),
    {
        let ghost start = self.bitpos();
        let ghost s = self.stream();
        let mut v: u32 = 0;
        let mut pow: u32 = 1;
        let mut i: u32 = 0;
        proof {
            lemma2_to64();
            self.lemma_bitpos_bound();
        }
        while i < n
            invariant
                self.inv(),
                self.bytes() == old(self).bytes(),
                s == self.stream(),
                i <= n,
                n <= 16,
                self.bitpos() == start + i,
                start == old(self).bitpos(),
                s == old(self).stream(),
                0 <= start,
                start + i <= s.len(),
                pow as int == pow2(i as nat),
                v as int == bits_value(s.subrange(start, start + i)),
                v < pow,
            decreases n - i,
        {
            proof {
                self.lemma_bitpos_bound();
            }
            match self.read_bit() {
                None => {
                    assert(start + i >= s.len());
                    return Err("deflate: unexpected end of input".to_owned());
                },
                Some(b) => {
                    assert(start + i < s.len());
                    assert(b == s[start + i]);
                    let ghost sub = s.subrange(start, start + i + 1);
                    assert(sub.drop_last() =~= s.subrange(start, start + i));
                    proof {
                        lemma_pow2_unfold((i + 1) as nat);
                        vstd::bits::lemma_u32_pow2_no_overflow((i + 1) as nat);
                    }
                    if b {
                        v = v + pow;
                    }
                    pow = pow * 2;
                    i = i + 1;
                },
            }
        }
        Ok(v)
    }

    /// Skip to the next byte boundary.
    pub fn align(&mut self)
        requires
            old(self).inv(),
        ensures
            final(self).inv(),
            final(self).bytes() == old(self).bytes(),
            final(self).stream() == old(self).stream(),
            final(self).bitpos() == if old(self).bitpos() % 8 == 0 {
                old(self).bitpos()
            } else {
                old(self).bitpos() - old(self).bitpos() % 8 + 8
            },
    {
        let len = self.data.len();
        if self.bitcnt > 0 {
            assert(self.pos < len);
            self.pos = self.pos + 1;
            self.bitcnt = 0;
        }
    }
}

/// Bit `k` of byte `j` sits at position `8 * j + k` of `bytes_to_bits`.
pub proof fn lemma_bytes_to_bits_index(bytes: Seq<u8>, j: int, k: int)
    requires
        0 <= j < bytes.len(),
        0 <= k < 8,
    ensures
        bytes_to_bits(bytes).len() == 8 * bytes.len(),
        bytes_to_bits(bytes)[8 * j + k] == lsb_bits(bytes[j] as int, 8)[k],
    decreases bytes.len(),
{
    lemma_bytes_to_bits_len(bytes);
    lemma_bytes_to_bits_len(bytes.drop_last());
    lemma_lsb_bits_len(bytes.last() as int, 8);
    if j < bytes.len() - 1 {
        lemma_bytes_to_bits_index(bytes.drop_last(), j, k);
    }
}

} // verus!
