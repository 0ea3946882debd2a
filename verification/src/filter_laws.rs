use crate::png_decode::{paeth_spec, predict, recon};
use vstd::prelude::*;

verus! {

/// A scanline filtered as the PNG specification defines the filters:
/// each byte minus its predictor, modulo 256, where `a` is the byte `bpp`
/// to the left, `b` the byte above and `c` the byte above `a` (0 outside
/// the line): None predicts 0, Sub `a`, Up `b`, Average the floor of
/// `(a + b) / 2`, Paeth the Paeth predictor.
pub open spec fn filter_line(f: u8, raw: Seq<u8>, prior: Seq<u8>, bpp: int) -> Seq<u8> {
    Seq::new(
        raw.len(),
        |x: int|
            {
                let a: int = if x >= bpp {
                    raw[x - bpp] as int
                } else {
                    0
                };
                let b: int = prior[x] as int;
                let c: int = if x >= bpp {
                    prior[x - bpp] as int
                } else {
                    0
                };
                let pr: int = if f == 1 {
                    a
                } else if f == 2 {
                    b
                } else if f == 3 {
                    (a + b) / 2
                } else if f == 4 {
                    paeth_spec(a, b, c)
                } else {
                    0
                };
                ((raw[x] as int - pr) % 256) as u8
            },
    )
}

proof fn lemma_mod_undo(v: int, pr: int)
    requires
        0 <= v < 256,
    ensures
        ((((v - pr) % 256) as u8) as int + pr) % 256 == v,
{
    let m = (v - pr) % 256;
    assert(0 <= m < 256);
    assert(((m as u8) as int) == m);
    assert((m + pr) % 256 == v) by (nonlinear_arith)
        requires
            m == (v - pr) % 256,
            0 <= v < 256,
    ;
}

proof fn lemma_recon_filtered(f: u8, raw: Seq<u8>, prior: Seq<u8>, bpp: int, n: nat)
    requires
        raw.len() == prior.len(),
        n <= raw.len(),
        bpp >= 1,
        f <= 4,
    ensures
        recon(filter_line(f, raw, prior, bpp), prior, f, bpp, n) == raw.take(n as int),
    decreases n,
{
    if n == 0 {
        assert(raw.take(0) =~= Seq::<u8>::empty());
    } else {
        lemma_recon_filtered(f, raw, prior, bpp, (n - 1) as nat);
        let x = n - 1;
        let filt = filter_line(f, raw, prior, bpp);
        let r = raw.take(x);
        let a: u8 = if x >= bpp {
            r[x - bpp]
        } else {
            0
        };
        let c: u8 = if x >= bpp {
            prior[x - bpp]
        } else {
            0
        };
        let pr = predict(f, a, prior[x], c);
        assert(x >= bpp ==> r[x - bpp] == raw[x - bpp]);
        let ai: int = if x >= bpp {
            raw[x - bpp] as int
        } else {
            0
        };
        let ci: int = if x >= bpp {
            prior[x - bpp] as int
        } else {
            0
        };
        assert(pr == if f == 1 {
            ai
        } else if f == 2 {
            prior[x] as int
        } else if f == 3 {
            (ai + prior[x] as int) / 2
        } else if f == 4 {
            paeth_spec(ai, prior[x] as int, ci)
        } else {
            0
        });
        assert(filt[x] == (((raw[x] as int - pr) % 256) as u8));
        lemma_mod_undo(raw[x] as int, pr);
        assert(raw.take(n as int) =~= r.push(raw[x]));
    }
}

/// Unfiltering undoes filtering: a scanline filtered with any of the five
/// filter types against the line above is reconstructed exactly.
pub proof fn law_unfilter_undoes_filter(f: u8, raw: Seq<u8>, prior: Seq<u8>, bpp: int)
    requires
        raw.len() == prior.len(),
        1 <= bpp,
        f <= 4,
    ensures
        recon(filter_line(f, raw, prior, bpp), prior, f, bpp, raw.len()) == raw,
{
    lemma_recon_filtered(f, raw, prior, bpp, raw.len());
    assert(raw.take(raw.len() as int) =~= raw);
}

/// The distance of `x` from the Paeth estimate `a + b - c`.
pub open spec fn paeth_dist(a: int, b: int, c: int, x: int) -> int {
    let p = a + b - c;
    if p >= x {
        p - x
    } else {
        x - p
    }
}

/// The Paeth predictor picks whichever of left (`a`), up (`b`) and
/// upper-left (`c`) lies nearest to `a + b - c`, preferring `a`, then `b`,
/// on ties.
pub proof fn law_paeth_nearest(a: int, b: int, c: int)
    ensures
        paeth_spec(a, b, c) == a || paeth_spec(a, b, c) == b || paeth_spec(a, b, c) == c,
        paeth_dist(a, b, c, paeth_spec(a, b, c)) <= paeth_dist(a, b, c, a),
        paeth_dist(a, b, c, paeth_spec(a, b, c)) <= paeth_dist(a, b, c, b),
        paeth_dist(a, b, c, paeth_spec(a, b, c)) <= paeth_dist(a, b, c, c),
        paeth_dist(a, b, c, a) <= paeth_dist(a, b, c, b) && paeth_dist(a, b, c, a) <= paeth_dist(
            a,
            b,
            c,
            c,
        ) ==> paeth_spec(a, b, c) == a,
        paeth_dist(a, b, c, a) > paeth_dist(a, b, c, b) && paeth_dist(a, b, c, b) <= paeth_dist(
            a,
            b,
            c,
            c,
        ) ==> paeth_spec(a, b, c) == b,
{
}

} // verus!
