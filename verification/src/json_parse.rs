use crate::json::{Json, Value, models, pair_models, lemma_models, lemma_pair_models};
use crate::text::{decimal_chars, push_char, string_from_utf8, u64_to_string};
use vstd::prelude::*;
use vstd::string::StringExecFns;
use vstd::string::StringSliceAdditionalSpecFns;
use vstd::utf8::{decode_utf8, valid_utf8};

verus! {

/// Deepest nesting of arrays and objects the parser accepts.
pub const MAX_DEPTH: usize = 128;

/// Result of parsing at a position: the item and the position after it, or
/// an error message and the position where the error was detected.
pub type Parsed<T> = Result<(T, int), (Seq<char>, int)>;

/// Parse error with its line and column (columns count bytes).
#[derive(Debug)]
pub struct Error {
    msg: String,
    line: usize,
    col: usize,
}

/// `x + 1`, capped at the largest `usize`.
pub open spec fn one_based(x: nat) -> nat {
    if x + 1 > usize::MAX {
        usize::MAX as nat
    } else {
        x + 1
    }
}

/// Number of line feeds in `s`.
pub open spec fn newlines(s: Seq<u8>) -> nat
    decreases s.len(),
{
    if s.len() == 0 {
        0
    } else {
        newlines(s.drop_last()) + if s.last() == 10 {
            1nat
        } else {
            0nat
        }
    }
}

/// Offset of the first byte after the last line feed in `s` (0 if none).
pub open spec fn line_start(s: Seq<u8>) -> nat
    decreases s.len(),
{
    if s.len() == 0 {
        0
    } else if s.last() == 10 {
        s.len()
    } else {
        line_start(s.drop_last())
    }
}

/// Line of byte offset `p` in `b` (1-based).
pub open spec fn line_at(b: Seq<u8>, p: int) -> nat {
    one_based(newlines(b.take(p)))
}

/// Column of byte offset `p` in `b` (1-based, in bytes).
pub open spec fn col_at(b: Seq<u8>, p: int) -> nat {
    one_based((p - line_start(b.take(p))) as nat)
}

impl Error {
    /// Message, line and column.
    pub closed spec fn parts(self) -> (Seq<char>, nat, nat) {
        (self.msg@, self.line as nat, self.col as nat)
    }

    /// This error reports `msg` at byte offset `p` of `b`.
    pub open spec fn reports(self, b: Seq<u8>, msg: Seq<char>, p: int) -> bool {
        self.parts() == (msg, line_at(b, p), col_at(b, p))
    }

    pub(crate) fn new(msg: &str, line: usize, col: usize) -> (e: Error)
        ensures
            e.parts() == (msg@, line as nat, col as nat),
    {
        Error { msg: msg.to_owned(), line, col }
    }

    /// `"<msg> at line <line> column <col>"`.
    pub fn to_string(&self) -> (s: String)
        ensures
            s@ == self.parts().0 + " at line "@ + decimal_chars(self.parts().1) + " column "@
                + decimal_chars(self.parts().2),
    {
        let mut s = self.msg.clone();
        s.append(" at line ");
        let l = u64_to_string(self.line as u64);
        s.append(l.as_str());
        s.append(" column ");
        let c = u64_to_string(self.col as u64);
        s.append(c.as_str());
        s
    }
}

/// JSON whitespace.
pub open spec fn is_ws(c: u8) -> bool {
    c == 0x20 || c == 0x09 || c == 0x0A || c == 0x0D
}

pub open spec fn is_digit(c: u8) -> bool {
    0x30 <= c <= 0x39
}

/// First position at or after `p` that is not whitespace.
pub open spec fn skip_ws_spec(b: Seq<u8>, p: int) -> int
    decreases b.len() - p,
{
    if 0 <= p < b.len() && is_ws(b[p]) {
        skip_ws_spec(b, p + 1)
    } else {
        p
    }
}

/// First position at or after `p` that is not a decimal digit.
pub open spec fn digits_end(b: Seq<u8>, p: int) -> int
    decreases b.len() - p,
{
    if 0 <= p < b.len() && is_digit(b[p]) {
        digits_end(b, p + 1)
    } else {
        p
    }
}

/// The number written by decimal digits `s`.
pub open spec fn digits_value(s: Seq<u8>) -> nat
    decreases s.len(),
{
    if s.len() == 0 {
        0
    } else {
        digits_value(s.drop_last()) * 10 + (s.last() - 48) as nat
    }
}

/// The characters of ASCII bytes.
pub open spec fn ascii_chars(s: Seq<u8>) -> Seq<char> {
    Seq::new(s.len(), |i: int| s[i] as char)
}

/// Value of a hexadecimal digit.
pub open spec fn hex_value(c: u8) -> Option<u32> {
    if 0x30 <= c <= 0x39 {
        Some((c - 0x30) as u32)
    } else if 0x61 <= c <= 0x66 {
        Some((c - 0x61 + 10) as u32)
    } else if 0x41 <= c <= 0x46 {
        Some((c - 0x41 + 10) as u32)
    } else {
        None
    }
}

/// Length of the UTF-8 sequence a leading byte announces.
pub open spec fn utf8_len_spec(c: u8) -> int {
    if c <= 0x7F {
        1
    } else if 0xC0 <= c <= 0xDF {
        2
    } else if 0xE0 <= c <= 0xEF {
        3
    } else {
        4
    }
}

pub open spec fn msg_unicode() -> Seq<char> {
    "invalid unicode escape"@
}

/// Read hex digits `k..4` of a `\u` escape whose digits start at `p`.
pub open spec fn hex_run(b: Seq<u8>, p: int, k: int, acc: u32) -> Parsed<u32>
    decreases 4 - k,
{
    if k >= 4 {
        Ok((acc, p + 4))
    } else if p + k >= b.len() {
        Err((msg_unicode(), p + k))
    } else {
        match hex_value(b[p + k]) {
            None => Err((msg_unicode(), p + k + 1)),
            Some(d) => hex_run(b, p, k + 1, (acc * 16 + d) as u32),
        }
    }
}

/// The four hex digits of a `\u` escape starting at `p`.
pub open spec fn hex4_spec(b: Seq<u8>, p: int) -> Parsed<u32> {
    hex_run(b, p, 0, 0)
}

/// The character of a `\u` escape whose digits start at `p`; a high
/// surrogate must be followed by `\u` and a low surrogate.
pub open spec fn unicode_escape(b: Seq<u8>, p: int) -> Parsed<char> {
    match hex4_spec(b, p) {
        Err(e) => Err(e),
        Ok((hi, p4)) => if 0xD800 <= hi < 0xDC00 {
            if p4 >= b.len() {
                Err((msg_unicode(), p4))
            } else if b[p4] != 0x5C {
                Err((msg_unicode(), p4 + 1))
            } else if p4 + 1 >= b.len() {
                Err((msg_unicode(), p4 + 1))
            } else if b[p4 + 1] != 0x75 {
                Err((msg_unicode(), p4 + 2))
            } else {
                match hex4_spec(b, p4 + 2) {
                    Err(e) => Err(e),
                    Ok((lo, p8)) => if 0xDC00 <= lo < 0xE000 {
                        Ok(
                            (
                                (0x10000 + (hi - 0xD800) * 1024 + (lo - 0xDC00)) as char,
                                p8,
                            ),
                        )
                    } else {
                        Err((msg_unicode(), p8))
                    },
                }
            }
        } else if 0xDC00 <= hi < 0xE000 {
            Err((msg_unicode(), p4))
        } else {
            Ok((hi as char, p4))
        },
    }
}

/// The character a one-letter escape stands for.
pub open spec fn simple_escape(e: u8) -> Option<char> {
    if e == 0x22 {
        Some('"')
    } else if e == 0x5C {
        Some('\\')
    } else if e == 0x2F {
        Some('/')
    } else if e == 0x62 {
        Some('\u{8}')
    } else if e == 0x66 {
        Some('\u{c}')
    } else if e == 0x6E {
        Some('\n')
    } else if e == 0x72 {
        Some('\r')
    } else if e == 0x74 {
        Some('\t')
    } else {
        None
    }
}

/// The rest of a string literal from `r`, after the characters `acc`.
pub open spec fn str_body(b: Seq<u8>, r: int, acc: Seq<char>) -> Parsed<Seq<char>>
    decreases b.len() - r,
{
    if r < 0 || r >= b.len() {
        Err(("unterminated string"@, r))
    } else {
        let c = b[r];
        if c == 0x22 {
            Ok((acc, r + 1))
        } else if c == 0x5C {
            if r + 1 >= b.len() {
                Err(("invalid escape"@, r + 1))
            } else {
                let e = b[r + 1];
                match simple_escape(e) {
                    Some(ch) => str_body(b, r + 2, acc.push(ch)),
                    None => if e == 0x75 {
                        match unicode_escape(b, r + 2) {
                            Err(x) => Err(x),
                            Ok((ch, q)) => if q <= r || q > b.len() {
                                Err((msg_unicode(), q))
                            } else {
                                str_body(b, q, acc.push(ch))
                            },
                        }
                    } else {
                        Err(("invalid escape"@, r + 2))
                    },
                }
            }
        } else if c <= 0x1F {
            Err(("control character in string"@, r + 1))
        } else {
            let q = r + utf8_len_spec(c);
            if q > b.len() {
                Err(("invalid utf-8"@, b.len() as int))
            } else if !valid_utf8(b.subrange(r, q)) {
                Err(("invalid utf-8"@, q))
            } else {
                str_body(b, q, acc + decode_utf8(b.subrange(r, q)))
            }
        }
    }
}

/// A string literal whose opening quote is at `p`.
pub open spec fn string_spec(b: Seq<u8>, p: int) -> Parsed<Seq<char>> {
    str_body(b, p + 1, Seq::empty())
}

/// A number starting at `p` (a `-` or a digit).
pub open spec fn number_spec(b: Seq<u8>, p: int) -> Parsed<Json> {
    let q = if b[p] == 0x2D {
        p + 1
    } else {
        p
    };
    if !(q < b.len() && is_digit(b[q])) {
        Err(("invalid number"@, q))
    } else {
        let i_end = if b[q] == 0x30 {
            q + 1
        } else {
            digits_end(b, q)
        };
        let has_frac = i_end < b.len() && b[i_end] == 0x2E;
        if has_frac && !(i_end + 1 < b.len() && is_digit(b[i_end + 1])) {
            Err(("invalid number"@, i_end + 1))
        } else {
            let f_end = if has_frac {
                digits_end(b, i_end + 1)
            } else {
                i_end
            };
            let has_exp = f_end < b.len() && (b[f_end] == 0x65 || b[f_end] == 0x45);
            let s = f_end + 1;
            let s2 = if s < b.len() && (b[s] == 0x2B || b[s] == 0x2D) {
                s + 1
            } else {
                s
            };
            if has_exp && !(s2 < b.len() && is_digit(b[s2])) {
                Err(("invalid number"@, s2))
            } else {
                let end = if has_exp {
                    digits_end(b, s2)
                } else {
                    f_end
                };
                let text = ascii_chars(b.subrange(p, end));
                let mag = digits_value(b.subrange(q, i_end));
                if has_frac || has_exp {
                    Ok((Json::Float(text), end))
                } else if q == p && mag <= u64::MAX {
                    Ok((Json::UInt(mag as u64), end))
                } else if q != p && mag <= 0x8000_0000_0000_0000 {
                    Ok((Json::Int((0 - mag) as i64), end))
                } else {
                    Ok((Json::Float(text), end))
                }
            }
        }
    }
}

/// A literal word (`true`, `false`, `null`) at `p`.
pub open spec fn lit_spec(b: Seq<u8>, p: int, word: Seq<u8>, v: Json) -> Parsed<Json> {
    if p + word.len() <= b.len() && b.subrange(p, p + word.len() as int) == word {
        Ok((v, p + word.len()))
    } else {
        Err(("expected value"@, p))
    }
}

pub open spec fn true_bytes() -> Seq<u8> {
    seq![0x74u8, 0x72, 0x75, 0x65]
}

pub open spec fn false_bytes() -> Seq<u8> {
    seq![0x66u8, 0x61, 0x6C, 0x73, 0x65]
}

pub open spec fn null_bytes() -> Seq<u8> {
    seq![0x6Eu8, 0x75, 0x6C, 0x6C]
}

/// A JSON value at `p`, nested `depth` levels deep.
pub open spec fn value_spec(b: Seq<u8>, p: int, depth: nat) -> Parsed<Json>
    decreases b.len() - p, 1int,
{
    if p < 0 || p > b.len() {
        Err(("expected value"@, p))
    } else if depth > MAX_DEPTH {
        Err(("recursion limit exceeded"@, p))
    } else if p == b.len() {
        Err(("unexpected end of input"@, p))
    } else {
        let c = b[p];
        if c == 0x7B {
            object_spec(b, p, depth)
        } else if c == 0x5B {
            array_spec(b, p, depth)
        } else if c == 0x22 {
            match string_spec(b, p) {
                Ok((s, q)) => Ok((Json::Str(s), q)),
                Err(e) => Err(e),
            }
        } else if c == 0x74 {
            lit_spec(b, p, true_bytes(), Json::Bool(true))
        } else if c == 0x66 {
            lit_spec(b, p, false_bytes(), Json::Bool(false))
        } else if c == 0x6E {
            lit_spec(b, p, null_bytes(), Json::Null)
        } else if c == 0x2D || is_digit(c) {
            number_spec(b, p)
        } else {
            Err(("expected value"@, p))
        }
    }
}

/// An object whose `{` is at `p`.
pub open spec fn object_spec(b: Seq<u8>, p: int, depth: nat) -> Parsed<Json>
    decreases b.len() - p, 0int,
{
    let q = skip_ws_spec(b, p + 1);
    if p < 0 || q <= p || q > b.len() {
        Err(("expected value"@, p))
    } else if q < b.len() && b[q] == 0x7D {
        Ok((Json::Object(Seq::empty()), q + 1))
    } else {
        members_spec(b, q, depth, Seq::empty())
    }
}

/// Object members from `r`, after the members `acc`.
pub open spec fn members_spec(
    b: Seq<u8>,
    r: int,
    depth: nat,
    acc: Seq<(Seq<char>, Json)>,
) -> Parsed<Json>
    decreases b.len() - r, 2int,
{
    let r1 = skip_ws_spec(b, r);
    if r < 0 || r1 < r || r1 > b.len() {
        Err(("expected object key"@, r))
    } else if r1 == b.len() || b[r1] != 0x22 {
        Err(("expected object key"@, r1))
    } else {
        match string_spec(b, r1) {
            Err(e) => Err(e),
            Ok((k, r2)) => {
                let r3 = skip_ws_spec(b, r2);
                if r2 <= r1 || r3 < r2 || r3 > b.len() {
                    Err(("expected ':'"@, r3))
                } else if r3 == b.len() {
                    Err(("expected ':'"@, r3))
                } else if b[r3] != 0x3A {
                    Err(("expected ':'"@, r3 + 1))
                } else {
                    let r5 = skip_ws_spec(b, r3 + 1);
                    if r5 <= r3 || r5 > b.len() {
                        Err(("expected value"@, r5))
                    } else {
                        match value_spec(b, r5, depth + 1) {
                            Err(e) => Err(e),
                            Ok((v, r6)) => {
                                let r7 = skip_ws_spec(b, r6);
                                let acc2 = acc.push((k, v));
                                if r6 <= r5 || r7 < r6 || r7 > b.len() {
                                    Err(("expected ',' or '}'"@, r7))
                                } else if r7 == b.len() {
                                    Err(("expected ',' or '}'"@, r7))
                                } else if b[r7] == 0x2C {
                                    members_spec(b, r7 + 1, depth, acc2)
                                } else if b[r7] == 0x7D {
                                    Ok((Json::Object(acc2), r7 + 1))
                                } else {
                                    Err(("expected ',' or '}'"@, r7 + 1))
                                }
                            },
                        }
                    }
                }
            },
        }
    }
}

/// An array whose `[` is at `p`.
pub open spec fn array_spec(b: Seq<u8>, p: int, depth: nat) -> Parsed<Json>
    decreases b.len() - p, 0int,
{
    let q = skip_ws_spec(b, p + 1);
    if p < 0 || q <= p || q > b.len() {
        Err(("expected value"@, p))
    } else if q < b.len() && b[q] == 0x5D {
        Ok((Json::Array(Seq::empty()), q + 1))
    } else {
        elements_spec(b, q, depth, Seq::empty())
    }
}

/// Array elements from `r`, after the elements `acc`.
pub open spec fn elements_spec(b: Seq<u8>, r: int, depth: nat, acc: Seq<Json>) -> Parsed<Json>
    decreases b.len() - r, 2int,
{
    let r1 = skip_ws_spec(b, r);
    if r < 0 || r1 < r || r1 > b.len() {
        Err(("expected value"@, r))
    } else {
        match value_spec(b, r1, depth + 1) {
            Err(e) => Err(e),
            Ok((v, r2)) => {
                let r3 = skip_ws_spec(b, r2);
                let acc2 = acc.push(v);
                if r2 <= r1 || r3 < r2 || r3 > b.len() {
                    Err(("expected ',' or ']'"@, r3))
                } else if r3 == b.len() {
                    Err(("expected ',' or ']'"@, r3))
                } else if b[r3] == 0x2C {
                    elements_spec(b, r3 + 1, depth, acc2)
                } else if b[r3] == 0x5D {
                    Ok((Json::Array(acc2), r3 + 1))
                } else {
                    Err(("expected ',' or ']'"@, r3 + 1))
                }
            },
        }
    }
}

/// A whole document: one value with only whitespace around it.
pub open spec fn parse_spec(b: Seq<u8>) -> Result<Json, (Seq<char>, int)> {
    match value_spec(b, skip_ws_spec(b, 0), 0) {
        Err(e) => Err(e),
        Ok((v, q)) => {
            let r = skip_ws_spec(b, q);
            if r != b.len() {
                Err(("trailing characters"@, r))
            } else {
                Ok(v)
            }
        },
    }
}

/// `res` is what the parser owes for the outcome `spec` on `b`.
pub open spec fn agrees<T, U>(
    b: Seq<u8>,
    spec: Parsed<T>,
    res: Result<(U, usize), Error>,
    model: spec_fn(U) -> T,
) -> bool {
    match spec {
        Ok((t, q)) => res matches Ok((u, q2)) && model(u) == t && q2 == q,
        Err((m, q)) => res matches Err(e) && e.reports(b, m, q),
    }
}

/// A successful parse from `p` advanced and stayed inside `b`.
pub open spec fn advanced<U>(b: Seq<u8>, p: int, res: Result<(U, usize), Error>) -> bool {
    res matches Ok((_, q)) ==> p < q <= b.len()
}

/// Length of the UTF-8 sequence a leading byte announces.
fn utf8_len(first: u8) -> (n: usize)
    ensures
        n == utf8_len_spec(first),
{
    if first <= 0x7F {
        1
    } else if 0xC0 <= first && first <= 0xDF {
        2
    } else if 0xE0 <= first && first <= 0xEF {
        3
    } else {
        4
    }
}

/// `char::from_u32`: the character with code point `cp`, if it is a
/// Unicode scalar value.
#[verifier::external_body]
fn char_from_u32(cp: u32) -> (c: Option<char>)
    ensures
        c is Some <==> (cp < 0xD800 || 0xE000 <= cp <= 0x10FFFF),
        c matches Some(ch) ==> ch == cp as char,
{
    char::from_u32(cp)
}

pub(crate) struct Parser<'a> {
    pub(crate) bytes: &'a [u8],
}

impl<'a> Parser<'a> {
    /// The error `msg` at byte offset `pos`.
    fn err(&self, msg: &str, pos: usize) -> (e: Error)
        requires
            pos <= self.bytes@.len(),
        ensures
            e.reports(self.bytes@, msg@, pos as int),
    {
        let b = self.bytes;
        let mut nl: usize = 0;
        let mut start: usize = 0;
        let mut i: usize = 0;
        while i < pos
            invariant
                pos <= b@.len(),
                i <= pos,
                nl <= i,
                start <= i,
                nl == newlines(b@.take(i as int)),
                start == line_start(b@.take(i as int)),
            decreases pos - i,
        {
            assert(b@.take(i + 1).drop_last() =~= b@.take(i as int));
            if b[i] == 10 {
                nl = nl + 1;
                start = i + 1;
            }
            i = i + 1;
        }
        let line = nl.saturating_add(1);
        let col = (pos - start).saturating_add(1);
        Error::new(msg, line, col)
    }

    fn peek(&self, pos: usize) -> (r: Option<u8>)
        ensures
            r == (if pos < self.bytes@.len() {
                Some(self.bytes@[pos as int])
            } else {
                None::<u8>
            }),
    {
        if pos < self.bytes.len() {
            Some(self.bytes[pos])
        } else {
            None
        }
    }

    fn skip_ws(&self, pos: usize) -> (q: usize)
        requires
            pos <= self.bytes@.len(),
        ensures
            q == skip_ws_spec(self.bytes@, pos as int),
            pos <= q <= self.bytes@.len(),
    {
        let mut q = pos;
        while q < self.bytes.len() && (self.bytes[q] == 0x20 || self.bytes[q] == 0x09
            || self.bytes[q] == 0x0A || self.bytes[q] == 0x0D)
            invariant
                pos <= q <= self.bytes@.len(),
                skip_ws_spec(self.bytes@, pos as int) == skip_ws_spec(self.bytes@, q as int),
            decreases self.bytes@.len() - q,
        {
            q = q + 1;
        }
        q
    }

    /// Four hex digits starting at `p`.
    fn hex4(&self, p: usize) -> (res: Result<(u32, usize), Error>)
        requires
            p <= self.bytes@.len(),
        ensures
            agrees(self.bytes@, hex4_spec(self.bytes@, p as int), res, |u: u32| u),
            advanced(self.bytes@, p as int, res),
            res matches Ok((v, q)) ==> v <= 0xFFFF && q == p + 4,
    {
        let b = self.bytes;
        let n = b.len();
        let mut v: u32 = 0;
        let mut k: usize = 0;
        while k < 4
            invariant
                n == b@.len(),
                b@ == self.bytes@,
                p <= b@.len(),
                k <= 4,
                v < pow16(k as nat),
                hex_run(b@, p as int, 0, 0) == hex_run(b@, p as int, k as int, v),
                p + k <= b@.len(),
            decreases 4 - k,
        {
            if p + k >= n {
                return Err(self.err("invalid unicode escape", p + k));
            }
            assert(pow16(k as nat) <= 4096) by {
                reveal_with_fuel(pow16, 4);
            }
            let c = b[p + k];
            let d: u32 = if 0x30 <= c && c <= 0x39 {
                (c - 0x30) as u32
            } else if 0x61 <= c && c <= 0x66 {
                (c - 0x61 + 10) as u32
            } else if 0x41 <= c && c <= 0x46 {
                (c - 0x41 + 10) as u32
            } else {
                return Err(self.err("invalid unicode escape", p + k + 1));
            };
            assert(hex_value(c) == Some(d));
            assert(v * 16 + d < pow16((k + 1) as nat)) by (nonlinear_arith)
                requires
                    v < pow16(k as nat),
                    d < 16,
                    pow16((k + 1) as nat) == pow16(k as nat) * 16,
            ;
            v = v * 16 + d;
            k = k + 1;
        }
        assert(pow16(4) == 65536) by {
            reveal_with_fuel(pow16, 5);
        }
        Ok((v, p + 4))
    }
}

impl<'a> Parser<'a> {
    /// The character of a `\u` escape whose hex digits start at `p`.
    fn unicode(&self, p: usize) -> (res: Result<(char, usize), Error>)
        requires
            p <= self.bytes@.len(),
        ensures
            agrees(self.bytes@, unicode_escape(self.bytes@, p as int), res, |c: char| c),
            advanced(self.bytes@, p as int, res),
    {
        let n = self.bytes.len();
        let (hi, p4) = match self.hex4(p) {
            Ok(t) => t,
            Err(e) => {
                return Err(e);
            },
        };
        if 0xD800 <= hi && hi < 0xDC00 {
            if p4 >= n {
                return Err(self.err("invalid unicode escape", p4));
            }
            if self.bytes[p4] != 0x5C {
                return Err(self.err("invalid unicode escape", p4 + 1));
            }
            if p4 + 1 >= n {
                return Err(self.err("invalid unicode escape", p4 + 1));
            }
            if self.bytes[p4 + 1] != 0x75 {
                return Err(self.err("invalid unicode escape", p4 + 2));
            }
            let (lo, p8) = match self.hex4(p4 + 2) {
                Ok(t) => t,
                Err(e) => {
                    return Err(e);
                },
            };
            if !(0xDC00 <= lo && lo < 0xE000) {
                return Err(self.err("invalid unicode escape", p8));
            }
            let cp: u32 = 0x10000 + (hi - 0xD800) * 1024 + (lo - 0xDC00);
            match char_from_u32(cp) {
                Some(c) => Ok((c, p8)),
                None => Err(self.err("invalid unicode escape", p8)),
            }
        } else {
            match char_from_u32(hi) {
                Some(c) => Ok((c, p4)),
                None => Err(self.err("invalid unicode escape", p4)),
            }
        }
    }

    /// A string literal whose opening quote is at `p`.
    fn string(&self, p: usize) -> (res: Result<(String, usize), Error>)
        requires
            p < self.bytes@.len(),
            self.bytes@[p as int] == 0x22,
        ensures
            agrees(self.bytes@, string_spec(self.bytes@, p as int), res, |s: String| s@),
            advanced(self.bytes@, p as int, res),
    {
        let b = self.bytes;
        let n = b.len();
        let mut out = String::new();
        let mut r: usize = p + 1;
        while r < n
            invariant
                n == b@.len(),
                b@ == self.bytes@,
                p < r <= n,
                string_spec(b@, p as int) == str_body(b@, r as int, out@),
            decreases n - r,
        {
            let c = b[r];
            if c == 0x22 {
                return Ok((out, r + 1));
            } else if c == 0x5C {
                if r + 1 >= n {
                    return Err(self.err("invalid escape", r + 1));
                }
                let e = b[r + 1];
                let simple: Option<char> = if e == 0x22 {
                    Some('"')
                } else if e == 0x5C {
                    Some('\\')
                } else if e == 0x2F {
                    Some('/')
                } else if e == 0x62 {
                    Some('\u{8}')
                } else if e == 0x66 {
                    Some('\u{c}')
                } else if e == 0x6E {
                    Some('\n')
                } else if e == 0x72 {
                    Some('\r')
                } else if e == 0x74 {
                    Some('\t')
                } else {
                    None
                };
                assert(simple == simple_escape(e));
                match simple {
                    Some(ch) => {
                        push_char(&mut out, ch);
                        r = r + 2;
                    },
                    None => {
                        if e != 0x75 {
                            return Err(self.err("invalid escape", r + 2));
                        }
                        match self.unicode(r + 2) {
                            Ok((ch, q)) => {
                                push_char(&mut out, ch);
                                r = q;
                            },
                            Err(x) => {
                                return Err(x);
                            },
                        }
                    },
                }
            } else if c <= 0x1F {
                return Err(self.err("control character in string", r + 1));
            } else {
                let l = utf8_len(c);
                if l > n - r {
                    return Err(self.err("invalid utf-8", n));
                }
                let q = r + l;
                let mut seg: Vec<u8> = Vec::new();
                let mut i = r;
                while i < q
                    invariant
                        r <= i <= q <= n,
                        n == b@.len(),
                        seg@ == b@.subrange(r as int, i as int),
                    decreases q - i,
                {
                    seg.push(b[i]);
                    i = i + 1;
                }
                match string_from_utf8(seg) {
                    Some(t) => {
                        out.append(t.as_str());
                        r = q;
                    },
                    None => {
                        return Err(self.err("invalid utf-8", q));
                    },
                }
            }
        }
        Err(self.err("unterminated string", r))
    }
}

impl<'a> Parser<'a> {
    /// End of the run of decimal digits starting at `p`.
    fn digits(&self, p: usize) -> (q: usize)
        requires
            p <= self.bytes@.len(),
        ensures
            q == digits_end(self.bytes@, p as int),
            p <= q <= self.bytes@.len(),
            p < self.bytes@.len() && is_digit(self.bytes@[p as int]) ==> p < q,
    {
        let n = self.bytes.len();
        let mut q = p;
        while q < n && 0x30 <= self.bytes[q] && self.bytes[q] <= 0x39
            invariant
                n == self.bytes@.len(),
                p <= q <= n,
                digits_end(self.bytes@, p as int) == digits_end(self.bytes@, q as int),
            decreases n - q,
        {
            q = q + 1;
        }
        q
    }

    /// The value of the digits `from..to`, or `None` when it exceeds `u64`.
    fn magnitude(&self, from: usize, to: usize) -> (m: Option<u64>)
        requires
            from <= to <= self.bytes@.len(),
            forall|i: int| from <= i < to ==> is_digit(#[trigger] self.bytes@[i]),
        ensures
            m matches Some(v) ==> v == digits_value(self.bytes@.subrange(from as int, to as int)),
            m is None ==> digits_value(self.bytes@.subrange(from as int, to as int)) > u64::MAX,
    {
        let mut v: u64 = 0;
        let mut i = from;
        while i < to
            invariant
                from <= i <= to <= self.bytes@.len(),
                forall|j: int| from <= j < to ==> is_digit(#[trigger] self.bytes@[j]),
                v == digits_value(self.bytes@.subrange(from as int, i as int)),
            decreases to - i,
        {
            let d = (self.bytes[i] - 0x30) as u64;
            assert(self.bytes@.subrange(from as int, i + 1).drop_last() =~= self.bytes@.subrange(
                from as int,
                i as int,
            ));
            match v.checked_mul(10) {
                Some(t) => match t.checked_add(d) {
                    Some(u) => {
                        v = u;
                    },
                    None => {
                        proof {
                            lemma_digits_grow(self.bytes@, from as int, (i + 1) as int, to as int);
                        }
                        return None;
                    },
                },
                None => {
                    proof {
                        lemma_digits_grow(self.bytes@, from as int, (i + 1) as int, to as int);
                    }
                    return None;
                },
            }
            i = i + 1;
        }
        Some(v)
    }

    /// The characters of the ASCII bytes `from..to`.
    fn ascii_text(&self, from: usize, to: usize) -> (t: String)
        requires
            from <= to <= self.bytes@.len(),
        ensures
            t@ == ascii_chars(self.bytes@.subrange(from as int, to as int)),
    {
        let mut t = String::new();
        let mut i = from;
        while i < to
            invariant
                from <= i <= to <= self.bytes@.len(),
                t@ == ascii_chars(self.bytes@.subrange(from as int, i as int)),
            decreases to - i,
        {
            push_char(&mut t, self.bytes[i] as char);
            i = i + 1;
            assert(t@ =~= ascii_chars(self.bytes@.subrange(from as int, i as int)));
        }
        t
    }

    /// A number starting at `p`.
    #[verifier::rlimit(100)]
    #[verifier::spinoff_prover]
    fn number(&self, p: usize) -> (res: Result<(Value, usize), Error>)
        requires
            p < self.bytes@.len(),
            self.bytes@[p as int] == 0x2D || is_digit(self.bytes@[p as int]),
        ensures
            agrees(self.bytes@, number_spec(self.bytes@, p as int), res, |v: Value| v.model()),
            advanced(self.bytes@, p as int, res),
    {
        let b = self.bytes;
        let n = b.len();
        let q = if b[p] == 0x2D {
            p + 1
        } else {
            p
        };
        if !(q < n && 0x30 <= b[q] && b[q] <= 0x39) {
            return Err(self.err("invalid number", q));
        }
        let i_end = if b[q] == 0x30 {
            q + 1
        } else {
            self.digits(q)
        };
        let has_frac = i_end < n && b[i_end] == 0x2E;
        if has_frac && !(i_end + 1 < n && 0x30 <= b[i_end + 1] && b[i_end + 1] <= 0x39) {
            return Err(self.err("invalid number", i_end + 1));
        }
        let f_end = if has_frac {
            self.digits(i_end + 1)
        } else {
            i_end
        };
        let has_exp = f_end < n && (b[f_end] == 0x65 || b[f_end] == 0x45);
        let mut end = f_end;
        if has_exp {
            let s = f_end + 1;
            let s2 = if s < n && (b[s] == 0x2B || b[s] == 0x2D) {
                s + 1
            } else {
                s
            };
            if !(s2 < n && 0x30 <= b[s2] && b[s2] <= 0x39) {
                return Err(self.err("invalid number", s2));
            }
            end = self.digits(s2);
        }
        if has_frac || has_exp {
            let t = self.ascii_text(p, end);
            return Ok((Value::Float(t), end));
        }
        proof {
            if b@[q as int] != 0x30 {
                lemma_digits_all(b@, q as int);
            }
        }
        let mag = self.magnitude(q, i_end);
        match mag {
            Some(m) => {
                if q == p {
                    return Ok((Value::UInt(m), end));
                }
                if m <= 0x8000_0000_0000_0000 {
                    let i: i64 = if m == 0x8000_0000_0000_0000 {
                        i64::MIN
                    } else {
                        0 - (m as i64)
                    };
                    return Ok((Value::Int(i), end));
                }
            },
            None => {},
        }
        let t = self.ascii_text(p, end);
        Ok((Value::Float(t), end))
    }

    /// The literal `word` at `p`, standing for `v`.
    fn lit(&self, p: usize, word: &[u8], v: Value) -> (res: Result<(Value, usize), Error>)
        requires
            p <= self.bytes@.len(),
            word@.len() > 0,
        ensures
            agrees(
                self.bytes@,
                lit_spec(self.bytes@, p as int, word@, v.model()),
                res,
                |x: Value| x.model(),
            ),
            advanced(self.bytes@, p as int, res),
    {
        let n = self.bytes.len();
        let w = word.len();
        if w > n - p {
            return Err(self.err("expected value", p));
        }
        let mut i: usize = 0;
        while i < w
            invariant
                n == self.bytes@.len(),
                w == word@.len(),
                p + w <= n,
                i <= w,
                self.bytes@.subrange(p as int, p + i) == word@.take(i as int),
            decreases w - i,
        {
            if self.bytes[p + i] != word[i] {
                proof {
                    if self.bytes@.subrange(p as int, p + w) == word@ {
                        assert(self.bytes@.subrange(p as int, p + w)[i as int] == word@[i as int]);
                    }
                }
                return Err(self.err("expected value", p));
            }
            i = i + 1;
            assert(self.bytes@.subrange(p as int, p + i) =~= word@.take(i as int));
        }
        assert(word@.take(w as int) =~= word@);
        Ok((v, p + w))
    }
}

impl<'a> Parser<'a> {
    /// A value at `p`, nested `depth` levels deep.
    fn value(&self, p: usize, depth: usize) -> (res: Result<(Value, usize), Error>)
        requires
            p <= self.bytes@.len(),
            depth <= MAX_DEPTH + 1,
        ensures
            agrees(self.bytes@, value_spec(self.bytes@, p as int, depth as nat), res, |v: Value| v.model()),
            advanced(self.bytes@, p as int, res),
        decreases self.bytes@.len() - p, 1int,
    {
        if depth > MAX_DEPTH {
            return Err(self.err("recursion limit exceeded", p));
        }
        match self.peek(p) {
            None => Err(self.err("unexpected end of input", p)),
            Some(c) => {
                if c == 0x7B {
                    self.object(p, depth)
                } else if c == 0x5B {
                    self.array(p, depth)
                } else if c == 0x22 {
                    match self.string(p) {
                        Ok((t, q)) => Ok((Value::Str(t), q)),
                        Err(e) => Err(e),
                    }
                } else if c == 0x74 {
                    let w: [u8; 4] = [0x74, 0x72, 0x75, 0x65];
                    assert(w@ =~= true_bytes());
                    self.lit(p, &w, Value::Bool(true))
                } else if c == 0x66 {
                    let w: [u8; 5] = [0x66, 0x61, 0x6C, 0x73, 0x65];
                    assert(w@ =~= false_bytes());
                    self.lit(p, &w, Value::Bool(false))
                } else if c == 0x6E {
                    let w: [u8; 4] = [0x6E, 0x75, 0x6C, 0x6C];
                    assert(w@ =~= null_bytes());
                    self.lit(p, &w, Value::Null)
                } else if c == 0x2D || (0x30 <= c && c <= 0x39) {
                    self.number(p)
                } else {
                    Err(self.err("expected value", p))
                }
            },
        }
    }

    /// An object whose `{` is at `p`.
    fn object(&self, p: usize, depth: usize) -> (res: Result<(Value, usize), Error>)
        requires
            p < self.bytes@.len(),
            self.bytes@[p as int] == 0x7B,
            depth <= MAX_DEPTH,
        ensures
            agrees(self.bytes@, object_spec(self.bytes@, p as int, depth as nat), res, |v: Value| v.model()),
            advanced(self.bytes@, p as int, res),
        decreases self.bytes@.len() - p, 0int,
    {
        let n = self.bytes.len();
        let q = self.skip_ws(p + 1);
        let mut pairs: Vec<(String, Value)> = Vec::new();
        if q < n && self.bytes[q] == 0x7D {
            return Ok((Value::Object(pairs), q + 1));
        }
        let mut r = q;
        proof {
            assert(pair_models(pairs@) =~= Seq::<(Seq<char>, Json)>::empty());
        }
        loop
            invariant
                n == self.bytes@.len(),
                p < r <= n,
                depth <= MAX_DEPTH,
                object_spec(self.bytes@, p as int, depth as nat) == members_spec(
                    self.bytes@,
                    r as int,
                    depth as nat,
                    pair_models(pairs@),
                ),
            decreases n - r,
        {
            let r1 = self.skip_ws(r);
            if r1 == n || self.bytes[r1] != 0x22 {
                return Err(self.err("expected object key", r1));
            }
            let (k, r2) = match self.string(r1) {
                Ok(t) => t,
                Err(e) => {
                    return Err(e);
                },
            };
            let r3 = self.skip_ws(r2);
            if r3 == n {
                return Err(self.err("expected ':'", r3));
            }
            if self.bytes[r3] != 0x3A {
                return Err(self.err("expected ':'", r3 + 1));
            }
            let r5 = self.skip_ws(r3 + 1);
            let (v, r6) = match self.value(r5, depth + 1) {
                Ok(t) => t,
                Err(e) => {
                    return Err(e);
                },
            };
            let r7 = self.skip_ws(r6);
            let ghost before = pairs@;
            pairs.push((k, v));
            proof {
                assert(pairs@.drop_last() =~= before);
            }
            if r7 == n {
                return Err(self.err("expected ',' or '}'", r7));
            }
            if self.bytes[r7] == 0x2C {
                r = r7 + 1;
            } else if self.bytes[r7] == 0x7D {
                return Ok((Value::Object(pairs), r7 + 1));
            } else {
                return Err(self.err("expected ',' or '}'", r7 + 1));
            }
        }
    }

    /// An array whose `[` is at `p`.
    fn array(&self, p: usize, depth: usize) -> (res: Result<(Value, usize), Error>)
        requires
            p < self.bytes@.len(),
            self.bytes@[p as int] == 0x5B,
            depth <= MAX_DEPTH,
        ensures
            agrees(self.bytes@, array_spec(self.bytes@, p as int, depth as nat), res, |v: Value| v.model()),
            advanced(self.bytes@, p as int, res),
        decreases self.bytes@.len() - p, 0int,
    {
        let n = self.bytes.len();
        let q = self.skip_ws(p + 1);
        let mut items: Vec<Value> = Vec::new();
        if q < n && self.bytes[q] == 0x5D {
            return Ok((Value::Array(items), q + 1));
        }
        let mut r = q;
        proof {
            assert(models(items@) =~= Seq::<Json>::empty());
        }
        loop
            invariant
                n == self.bytes@.len(),
                p < r <= n,
                depth <= MAX_DEPTH,
                array_spec(self.bytes@, p as int, depth as nat) == elements_spec(
                    self.bytes@,
                    r as int,
                    depth as nat,
                    models(items@),
                ),
            decreases n - r,
        {
            let r1 = self.skip_ws(r);
            let (v, r2) = match self.value(r1, depth + 1) {
                Ok(t) => t,
                Err(e) => {
                    return Err(e);
                },
            };
            let r3 = self.skip_ws(r2);
            let ghost before = items@;
            items.push(v);
            proof {
                assert(items@.drop_last() =~= before);
            }
            if r3 == n {
                return Err(self.err("expected ',' or ']'", r3));
            }
            if self.bytes[r3] == 0x2C {
                r = r3 + 1;
            } else if self.bytes[r3] == 0x5D {
                return Ok((Value::Array(items), r3 + 1));
            } else {
                return Err(self.err("expected ',' or ']'", r3 + 1));
            }
        }
    }
}

/// The outcome `parse` owes for the document `b`.
pub open spec fn parse_outcome(b: Seq<u8>, res: Result<Value, Error>) -> bool {
    match parse_spec(b) {
        Ok(j) => res matches Ok(v) && v.model() == j,
        Err((m, q)) => res matches Err(e) && e.reports(b, m, q),
    }
}

/// Parse a JSON document.
pub fn parse(text: &str) -> (res: Result<Value, Error>)
    ensures
        parse_outcome(text.spec_bytes(), res),
{
    let bytes = text.as_bytes();
    let n = bytes.len();
    let parser = Parser { bytes };
    let p = parser.skip_ws(0);
    match parser.value(p, 0) {
        Err(e) => Err(e),
        Ok((v, q)) => {
            let r = parser.skip_ws(q);
            if r != n {
                Err(parser.err("trailing characters", r))
            } else {
                Ok(v)
            }
        },
    }
}

/// Appending a digit never makes a number of at least `u64::MAX + 1` smaller.
proof fn lemma_digits_grow(b: Seq<u8>, from: int, i: int, to: int)
    requires
        0 <= from <= i <= to <= b.len(),
        digits_value(b.subrange(from, i)) > u64::MAX,
    ensures
        digits_value(b.subrange(from, to)) > u64::MAX,
    decreases to - i,
{
    if i < to {
        assert(b.subrange(from, i + 1).drop_last() =~= b.subrange(from, i));
        lemma_digits_grow(b, from, i + 1, to);
    }
}

/// Every position before `digits_end` holds a digit.
proof fn lemma_digits_all(b: Seq<u8>, p: int)
    requires
        0 <= p <= b.len(),
    ensures
        p <= digits_end(b, p) <= b.len(),
        forall|i: int| p <= i < digits_end(b, p) ==> is_digit(#[trigger] b[i]),
    decreases b.len() - p,
{
    if p < b.len() && is_digit(b[p]) {
        lemma_digits_all(b, p + 1);
    }
}

/// `16^k`.
pub open spec fn pow16(k: nat) -> nat
    decreases k,
{
    if k == 0 {
        1
    } else {
        pow16((k - 1) as nat) * 16
    }
}

} // verus!
