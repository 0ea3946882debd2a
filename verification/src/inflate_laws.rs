use crate::bitio::lsb_bits;
use crate::deflate_laws::lemma_bv_lsb;
use crate::inflate::{bv, fill, huff_decode, read_lengths};
use vstd::arithmetic::power2::*;
use vstd::prelude::*;

verus! {

/// One instruction of a dynamic block's code-length list (RFC 1951
/// §3.2.7): a code length 0..=15 (symbols 0..=15); repeat the previous
/// length `3 + k` times, `k` in 0..=3 (symbol 16, two extra bits); `3 + k`
/// zeros, `k` in 0..=7 (symbol 17, three extra bits); `11 + k` zeros, `k`
/// in 0..=127 (symbol 18, seven extra bits).
pub enum LenOp {
    Len(u8),
    Repeat(u8),
    Zeros(u8),
    LongZeros(u8),
}

/// The instruction is within its range.
pub open spec fn op_ok(op: LenOp) -> bool {
    match op {
        LenOp::Len(l) => l <= 15,
        LenOp::Repeat(k) => k <= 3,
        LenOp::Zeros(k) => k <= 7,
        LenOp::LongZeros(k) => k <= 127,
    }
}

/// The code-length symbol of an instruction.
pub open spec fn op_sym(op: LenOp) -> u16 {
    match op {
        LenOp::Len(l) => l as u16,
        LenOp::Repeat(_) => 16,
        LenOp::Zeros(_) => 17,
        LenOp::LongZeros(_) => 18,
    }
}

/// The value and width of an instruction's extra bits.
pub open spec fn op_extra(op: LenOp) -> (int, nat) {
    match op {
        LenOp::Len(_) => (0, 0),
        LenOp::Repeat(k) => (k as int, 2),
        LenOp::Zeros(k) => (k as int, 3),
        LenOp::LongZeros(k) => (k as int, 7),
    }
}

/// The lengths `acc`, followed by those the instructions stand for.
pub open spec fn expand_ops(acc: Seq<u8>, ops: Seq<LenOp>) -> Seq<u8>
    decreases ops.len(),
{
    if ops.len() == 0 {
        acc
    } else {
        let more = match ops[0] {
            LenOp::Len(l) => seq![l],
            LenOp::Repeat(k) => Seq::new((3 + k) as nat, |j: int| acc.last()),
            LenOp::Zeros(k) => Seq::new((3 + k) as nat, |j: int| 0u8),
            LenOp::LongZeros(k) => Seq::new((11 + k) as nat, |j: int| 0u8),
        };
        expand_ops(acc + more, ops.drop_first())
    }
}

/// The stream holds the instructions `ops` from `p` to `q`: each as a
/// code that the code-length code `clen` reads as its symbol, then its
/// extra bits, least significant first.
pub open spec fn ops_at(
    s: Seq<bool>,
    p: int,
    clen: (Seq<u16>, Seq<u16>),
    ops: Seq<LenOp>,
    q: int,
) -> bool
    decreases ops.len(),
{
    if ops.len() == 0 {
        p == q
    } else {
        let (k, w) = op_extra(ops[0]);
        match huff_decode(clen, s, p) {
            None => false,
            Some((sym, p1)) => {
                &&& sym == op_sym(ops[0])
                &&& 0 <= p1
                &&& p1 + w <= s.len()
                &&& s.subrange(p1, p1 + w) == lsb_bits(k, w)
                &&& ops_at(s, p1 + w, clen, ops.drop_first(), q)
            },
        }
    }
}

proof fn lemma_expand_grows(acc: Seq<u8>, ops: Seq<LenOp>)
    ensures
        expand_ops(acc, ops).len() >= acc.len(),
        ops.len() > 0 ==> expand_ops(acc, ops).len() > acc.len(),
    decreases ops.len(),
{
    if ops.len() > 0 {
        let more = match ops[0] {
            LenOp::Len(l) => seq![l],
            LenOp::Repeat(k) => Seq::new((3 + k) as nat, |j: int| acc.last()),
            LenOp::Zeros(k) => Seq::new((3 + k) as nat, |j: int| 0u8),
            LenOp::LongZeros(k) => Seq::new((11 + k) as nat, |j: int| 0u8),
        };
        lemma_expand_grows(acc + more, ops.drop_first());
    }
}

proof fn lemma_read_ops(
    s: Seq<bool>,
    p: int,
    clen: (Seq<u16>, Seq<u16>),
    ops: Seq<LenOp>,
    q: int,
    acc: Seq<u8>,
    n: int,
)
    requires
        ops_at(s, p, clen, ops, q),
        forall|j: int| 0 <= j < ops.len() ==> op_ok(#[trigger] ops[j]),
        ops.len() > 0 && ops[0] is Repeat ==> acc.len() > 0,
        expand_ops(acc, ops).len() == n,
    ensures
        read_lengths(
            s,
            p,
            clen,
            acc + Seq::new((n - acc.len()) as nat, |j: int| 0u8),
            acc.len() as int,
            n,
        ) == Some((q, expand_ops(acc, ops))),
    decreases ops.len(),
{
    let i = acc.len() as int;
    let lens = acc + Seq::new((n - i) as nat, |j: int| 0u8);
    lemma_expand_grows(acc, ops);
    if ops.len() == 0 {
        assert(lens =~= acc);
    } else {
        let op = ops[0];
        let rest = ops.drop_first();
        assert(op_ok(op));
        let (k, w) = op_extra(op);
        let (sym, p1) = huff_decode(clen, s, p)->0;
        let more = match op {
            LenOp::Len(l) => seq![l],
            LenOp::Repeat(kk) => Seq::new((3 + kk) as nat, |j: int| acc.last()),
            LenOp::Zeros(kk) => Seq::new((3 + kk) as nat, |j: int| 0u8),
            LenOp::LongZeros(kk) => Seq::new((11 + kk) as nat, |j: int| 0u8),
        };
        let acc2 = acc + more;
        lemma_expand_grows(acc2, rest);
        assert(forall|j: int| 0 <= j < rest.len() ==> rest[j] == ops[j + 1]);
        assert(rest.len() > 0 && rest[0] is Repeat ==> acc2.len() > 0);
        lemma_read_ops(s, p1 + w, clen, rest, q, acc2, n);
        let lens2 = acc2 + Seq::new((n - acc2.len()) as nat, |j: int| 0u8);
        lemma2_to64();
        if w > 0 {
            lemma_bv_lsb(s, p1, w, k);
        }
        match op {
            LenOp::Len(l) => {
                assert(lens.update(i, l) =~= lens2);
            },
            LenOp::Repeat(kk) => {
                assert(bv(s, p1, 2) == kk);
                assert(lens[i - 1] == acc.last());
                assert(fill(lens, i, 3 + kk, lens[i - 1]) =~= lens2);
            },
            LenOp::Zeros(kk) => {
                assert(bv(s, p1, 3) == kk);
                assert(lens =~= lens2);
            },
            LenOp::LongZeros(kk) => {
                assert(bv(s, p1, 7) == kk);
                assert(lens =~= lens2);
            },
        }
    }
}

/// Reading a dynamic block's code lengths gives the lengths its
/// code-length instructions stand for (RFC 1951 §3.2.7), whatever the
/// code-length code: literal lengths are themselves, symbol 16 repeats
/// the previous length 3 to 6 times, symbols 17 and 18 give 3 to 10 and 11
/// to 138 zeros.
pub proof fn law_code_lengths(
    s: Seq<bool>,
    p: int,
    clen: (Seq<u16>, Seq<u16>),
    ops: Seq<LenOp>,
    q: int,
    n: int,
)
    requires
        ops_at(s, p, clen, ops, q),
        forall|j: int| 0 <= j < ops.len() ==> op_ok(#[trigger] ops[j]),
        ops.len() > 0 ==> !(ops[0] is Repeat),
        expand_ops(Seq::empty(), ops).len() == n,
    ensures
        read_lengths(s, p, clen, Seq::new(n as nat, |j: int| 0u8), 0, n) == Some(
            (q, expand_ops(Seq::empty(), ops)),
        ),
{
    lemma_read_ops(s, p, clen, ops, q, Seq::empty(), n);
    assert(Seq::<u8>::empty() + Seq::new(n as nat, |j: int| 0u8) =~= Seq::new(
        n as nat,
        |j: int| 0u8,
    ));
}

} // verus!
