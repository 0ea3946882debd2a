use crate::json::{
    array_body, deeper, escape_char, escape_str, hex_digit, json_text, newline, object_body,
    quoted, Json,
};
use crate::json_parse::{
    ascii_chars, digits_end, digits_value, hex4_spec, hex_run, hex_value, is_digit, is_ws, number_spec,
    parse_spec, skip_ws_spec,
};
use crate::text::{decimal_chars, digit_char, signed_decimal_chars};
use vstd::prelude::*;
use vstd::utf8::{encode_utf8, encode_scalar, is_ascii_chars};

verus! {

/// The UTF-8 encoding of a concatenation is the concatenation of the
/// encodings.
pub proof fn lemma_encode_concat(a: Seq<char>, b: Seq<char>)
    ensures
        encode_utf8(a + b) == encode_utf8(a) + encode_utf8(b),
    decreases a.len(),
{
    if a.len() > 0 {
        assert((a + b).drop_first() =~= a.drop_first() + b);
        lemma_encode_concat(a.drop_first(), b);
        assert((a + b)[0] == a[0]);
    } else {
        assert(a + b =~= b);
    }
}

/// ASCII characters encode to one byte each.
pub proof fn lemma_encode_ascii(s: Seq<char>)
    requires
        is_ascii_chars(s),
    ensures
        encode_utf8(s) == Seq::new(s.len(), |i: int| s[i] as u8),
{
    vstd::utf8::is_ascii_chars_encode_utf8(s);
    assert(encode_utf8(s) =~= Seq::new(s.len(), |i: int| s[i] as u8));
}

/// Skipping whitespace stops at the first byte that is not whitespace.
pub proof fn lemma_skip_ws(b: Seq<u8>, p: int, k: int)
    requires
        0 <= p,
        0 <= k,
        p + k <= b.len(),
        forall|i: int| p <= i < p + k ==> is_ws(#[trigger] b[i]),
        p + k == b.len() || !is_ws(b[p + k]),
    ensures
        skip_ws_spec(b, p) == p + k,
    decreases k,
{
    if k > 0 {
        lemma_skip_ws(b, p + 1, k - 1);
    }
}

/// A run of digits from `p` to `p + k` followed by a non-digit (or the
/// end) ends where the run ends.
pub proof fn lemma_digits_end(b: Seq<u8>, p: int, k: int)
    requires
        0 <= p,
        0 <= k,
        p + k <= b.len(),
        forall|i: int| p <= i < p + k ==> is_digit(#[trigger] b[i]),
        p + k == b.len() || !is_digit(b[p + k]),
    ensures
        digits_end(b, p) == p + k,
    decreases k,
{
    if k > 0 {
        lemma_digits_end(b, p + 1, k - 1);
    }
}

/// The bytes of an ASCII text.
pub open spec fn ascii_bytes(s: Seq<char>) -> Seq<u8> {
    Seq::new(s.len(), |i: int| s[i] as u8)
}

/// A byte that would extend a number written before it.
pub open spec fn continues_number(c: u8) -> bool {
    is_digit(c) || c == 0x2E || c == 0x65 || c == 0x45
}

/// Every position from `p` up to `digits_end` holds a digit, and the run
/// stops at a non-digit or at the end.
pub proof fn lemma_digits_run(b: Seq<u8>, p: int)
    requires
        0 <= p <= b.len(),
    ensures
        p <= digits_end(b, p) <= b.len(),
        forall|i: int| p <= i < digits_end(b, p) ==> is_digit(#[trigger] b[i]),
        digits_end(b, p) == b.len() || !is_digit(b[digits_end(b, p)]),
    decreases b.len() - p,
{
    if p < b.len() && is_digit(b[p]) {
        lemma_digits_run(b, p + 1);
    }
}

/// Digit runs inside a copy of `t` placed at `at` in `b` end at the same
/// relative place, provided the byte after the copy does not continue a
/// number.
pub proof fn lemma_digits_window(t: Seq<u8>, b: Seq<u8>, at: int, x: int)
    requires
        0 <= x <= t.len(),
        0 <= at,
        at + t.len() <= b.len(),
        b.subrange(at, at + t.len()) == t,
        at + t.len() == b.len() || !continues_number(b[at + t.len()]),
    ensures
        digits_end(b, at + x) == at + digits_end(t, x),
{
    lemma_digits_run(t, x);
    let y = digits_end(t, x);
    assert forall|i: int| at + x <= i < at + y implies is_digit(#[trigger] b[i]) by {
        assert(b[i] == b.subrange(at, at + t.len())[i - at]);
        assert(is_digit(t[i - at]));
    }
    if y < t.len() {
        assert(b[at + y] == b.subrange(at, at + t.len())[y]);
    }
    lemma_digits_end(b, at + x, y - x);
}

/// A number that reads whole from `t` reads the same from a copy of `t`
/// followed by a byte that does not continue it.
pub proof fn lemma_number_window(t: Seq<u8>, b: Seq<u8>, at: int)
    requires
        t.len() > 0,
        number_spec(t, 0) matches Ok((_, e)) && e == t.len(),
        0 <= at,
        at + t.len() <= b.len(),
        b.subrange(at, at + t.len()) == t,
        at + t.len() == b.len() || !continues_number(b[at + t.len()]),
    ensures
        number_spec(b, at) == match number_spec(t, 0) {
            Ok((j, e)) => Ok::<(Json, int), (Seq<char>, int)>((j, at + e)),
            Err(x) => Err(x),
        },
{
    let n = t.len() as int;
    assert forall|i: int| 0 <= i < n implies #[trigger] b[at + i] == t[i] by {
        assert(b[at + i] == b.subrange(at, at + n)[i]);
    }
    let q = if t[0] == 0x2D {
        1int
    } else {
        0int
    };
    assert(b[at] == t[0]);
    if q < n {
        assert(b[at + q] == t[q]);
        lemma_digits_window(t, b, at, q);
        let i_end = if t[q] == 0x30 {
            q + 1
        } else {
            digits_end(t, q)
        };
        lemma_digits_run(t, q);
        if i_end < n {
            assert(b[at + i_end] == t[i_end]);
        }
        if i_end + 1 < n {
            assert(b[at + i_end + 1] == t[i_end + 1]);
        }
        if i_end + 1 <= n {
            lemma_digits_window(t, b, at, i_end + 1);
            lemma_digits_run(t, i_end + 1);
        }
        let has_frac = i_end < n && t[i_end] == 0x2E;
        let f_end = if has_frac {
            digits_end(t, i_end + 1)
        } else {
            i_end
        };
        if f_end < n {
            assert(b[at + f_end] == t[f_end]);
        }
        let s1 = f_end + 1;
        if s1 < n {
            assert(b[at + s1] == t[s1]);
        }
        if s1 + 1 < n {
            assert(b[at + s1 + 1] == t[s1 + 1]);
        }
        let s2 = if s1 < n && (t[s1] == 0x2B || t[s1] == 0x2D) {
            s1 + 1
        } else {
            s1
        };
        if s2 <= n {
            lemma_digits_window(t, b, at, s2);
            lemma_digits_run(t, s2);
        }
        let has_exp = f_end < n && (t[f_end] == 0x65 || t[f_end] == 0x45);
        let end = if has_exp {
            digits_end(t, s2)
        } else {
            f_end
        };
        assert(b.subrange(at, at + end) =~= t.subrange(0, end));
        assert(b.subrange(at + q, at + i_end) =~= t.subrange(q, i_end));
    }
}

/// The decimal text of `n` is ASCII digits with no leading zero, and its
/// bytes are worth `n`.
pub proof fn lemma_decimal_bytes(n: nat)
    ensures
        decimal_chars(n).len() > 0,
        is_ascii_chars(decimal_chars(n)),
        forall|i: int|
            0 <= i < decimal_chars(n).len() ==> is_digit(#[trigger] ascii_bytes(decimal_chars(n))[i]),
        n > 0 ==> ascii_bytes(decimal_chars(n))[0] != 0x30,
        n == 0 ==> decimal_chars(n) == seq!['0'],
        digits_value(ascii_bytes(decimal_chars(n))) == n,
    decreases n,
{
    let d = decimal_chars(n);
    let db = ascii_bytes(d);
    if n < 10 {
        assert(d == seq![digit_char(n as int)]);
        assert((digit_char(n as int) as u8) == 48 + n);
        assert(db.drop_last() =~= Seq::<u8>::empty());
        assert(digits_value(db.drop_last()) == 0);
    } else {
        lemma_decimal_bytes(n / 10);
        let p = decimal_chars(n / 10);
        assert(d == p.push(digit_char((n % 10) as int)));
        assert(db.drop_last() =~= ascii_bytes(p));
        assert((digit_char((n % 10) as int) as u8) == 48 + n % 10);
        assert(db.last() == 48 + n % 10);
        assert((n / 10) * 10 + n % 10 == n) by (nonlinear_arith);
        assert forall|i: int| 0 <= i < d.len() implies '\0' <= #[trigger] d[i] <= '\u{7f}' by {
            if i < p.len() {
                assert(d[i] == p[i]);
            }
        }
        assert forall|i: int| 0 <= i < db.len() implies is_digit(#[trigger] db[i]) by {
            if i < p.len() {
                assert(db[i] == ascii_bytes(p)[i]);
            }
        }
        assert(db[0] == ascii_bytes(p)[0]);
    }
}

/// An unsigned number's text reads back as itself.
pub proof fn lemma_uint_reads_back(u: u64)
    ensures
        number_spec(ascii_bytes(decimal_chars(u as nat)), 0) == Ok::<(Json, int), (Seq<char>, int)>(
            (Json::UInt(u), decimal_chars(u as nat).len() as int),
        ),
{
    let t = ascii_bytes(decimal_chars(u as nat));
    lemma_decimal_bytes(u as nat);
    let n = t.len() as int;
    if u > 0 {
        lemma_digits_end(t, 0, n);
    }
    assert(t.subrange(0, n) =~= t);
}

/// A negative number's text reads back as itself.
pub proof fn lemma_int_reads_back(i: i64)
    requires
        i < 0,
    ensures
        number_spec(ascii_bytes(signed_decimal_chars(i as int)), 0) == Ok::<
            (Json, int),
            (Seq<char>, int),
        >((Json::Int(i), signed_decimal_chars(i as int).len() as int)),
{
    let m = (-i) as nat;
    let d = decimal_chars(m);
    let t = ascii_bytes(signed_decimal_chars(i as int));
    lemma_decimal_bytes(m);
    let n = t.len() as int;
    assert(signed_decimal_chars(i as int) == seq!['-'] + d);
    assert(t[0] == 0x2D);
    assert(t.subrange(1, n) =~= ascii_bytes(d));
    assert forall|k: int| 1 <= k < n implies is_digit(#[trigger] t[k]) by {
        assert(t[k] == ascii_bytes(d)[k - 1]);
    }
    assert(t[1] == ascii_bytes(d)[0]);
    if m > 0 {
        lemma_digits_end(t, 1, n - 1);
    }
    assert(t.subrange(0, n) =~= t);
}

/// Escaping distributes over concatenation.
pub proof fn lemma_escape_concat(a: Seq<char>, c: Seq<char>)
    ensures
        escape_str(a + c) == escape_str(a) + escape_str(c),
    decreases c.len(),
{
    if c.len() == 0 {
        assert(a + c =~= a);
        assert(escape_str(a) + escape_str(c) =~= escape_str(a));
    } else {
        assert((a + c).drop_last() =~= a + c.drop_last());
        assert((a + c).last() == c.last());
        lemma_escape_concat(a, c.drop_last());
        assert(escape_str(a + c) =~= escape_str(a) + escape_str(c));
    }
}

/// The value of a hex digit's character is the digit.
proof fn lemma_hex_digit(d: int)
    requires
        0 <= d < 16,
    ensures
        crate::json_parse::hex_value(hex_digit(d) as u8) == Some(d as u32),
{
}

/// One escaped character reads back as that character.
pub proof fn lemma_escape_char_reads(b: Seq<u8>, r: int, c: char, acc: Seq<char>)
    requires
        0 <= r,
        r + encode_utf8(escape_char(c)).len() < b.len(),
        b.subrange(r, r + encode_utf8(escape_char(c)).len()) == encode_utf8(escape_char(c)),
    ensures
        crate::json_parse::str_body(b, r, acc) == crate::json_parse::str_body(
            b,
            r + encode_utf8(escape_char(c)).len(),
            acc.push(c),
        ),
{
    if c == '"' || c == '\\' || c == '\u{8}' || c == '\u{c}' || c == '\n' || c == '\r' || c == '\t' {
        lemma_escape_simple(b, r, c, acc);
    } else if (c as u32) < 0x20 {
        lemma_escape_control(b, r, c, acc);
    } else {
        lemma_escape_plain(b, r, c, acc);
    }
}

#[verifier::rlimit(100)]
proof fn lemma_escape_simple(b: Seq<u8>, r: int, c: char, acc: Seq<char>)
    requires
        0 <= r,
        r + encode_utf8(escape_char(c)).len() < b.len(),
        b.subrange(r, r + encode_utf8(escape_char(c)).len()) == encode_utf8(escape_char(c)),
        c == '"' || c == '\\' || c == '\u{8}' || c == '\u{c}' || c == '\n' || c == '\r' || c == '\t',
    ensures
        crate::json_parse::str_body(b, r, acc) == crate::json_parse::str_body(
            b,
            r + encode_utf8(escape_char(c)).len(),
            acc.push(c),
        ),
{
    let e = escape_char(c);
    let k = encode_utf8(e).len() as int;
    assert(is_ascii_chars(e));
    lemma_encode_ascii(e);
    assert(b[r] == b.subrange(r, r + k)[0]);
    assert(b[r + 1] == b.subrange(r, r + k)[1]);
    assert(k == 2);
    assert(b[r] == 0x5C);
    assert(crate::json_parse::simple_escape(b[r + 1]) == Some(c));
}

#[verifier::rlimit(100)]
proof fn lemma_escape_control(b: Seq<u8>, r: int, c: char, acc: Seq<char>)
    requires
        0 <= r,
        r + encode_utf8(escape_char(c)).len() < b.len(),
        b.subrange(r, r + encode_utf8(escape_char(c)).len()) == encode_utf8(escape_char(c)),
        !(c == '"' || c == '\\' || c == '\u{8}' || c == '\u{c}' || c == '\n' || c == '\r' || c == '\t'),
        (c as u32) < 0x20,
    ensures
        crate::json_parse::str_body(b, r, acc) == crate::json_parse::str_body(
            b,
            r + encode_utf8(escape_char(c)).len(),
            acc.push(c),
        ),
{
    let e = escape_char(c);
    let k = encode_utf8(e).len() as int;
        let v = c as u32;
        assert(is_ascii_chars(e)) by {
            assert(hex_digit(v as int / 16) == '0' || hex_digit(v as int / 16) == '1');
        }
        lemma_encode_ascii(e);
        assert forall|i: int| 0 <= i < 6 implies b[r + i] == #[trigger] encode_utf8(e)[i] by {
            assert(b[r + i] == b.subrange(r, r + k)[i]);
        }
        lemma_hex_digit(v as int / 16);
        lemma_hex_digit(v as int % 16);
        let p2 = r + 2;
        let h1 = (v / 16) as u32;
        let h2 = (v % 16) as u32;
        let eb = encode_utf8(e);
        assert(e[2] == '0' && e[3] == '0' && e[4] == hex_digit(v as int / 16) && e[5] == hex_digit(
            v as int % 16,
        ));
        assert(b[r + 2] == eb[2] && b[r + 3] == eb[3] && b[r + 4] == eb[4] && b[r + 5] == eb[5]);
        assert(eb[2] == 0x30 && eb[3] == 0x30);
        assert(eb[4] == hex_digit(v as int / 16) as u8 && eb[5] == hex_digit(v as int % 16) as u8);
        assert(b[p2] == 0x30 && b[p2 + 1] == 0x30);
        assert(crate::json_parse::hex_run(b, p2, 0, 0) == crate::json_parse::hex_run(b, p2, 1, 0));
        assert(crate::json_parse::hex_run(b, p2, 1, 0) == crate::json_parse::hex_run(b, p2, 2, 0));
        assert(crate::json_parse::hex_run(b, p2, 2, 0) == crate::json_parse::hex_run(b, p2, 3, h1));
        assert(crate::json_parse::hex_run(b, p2, 3, h1) == crate::json_parse::hex_run(
            b,
            p2,
            4,
            (h1 * 16 + h2) as u32,
        ));
        assert(h1 * 16 + h2 == v);
        assert(crate::json_parse::hex4_spec(b, r + 2) == Ok::<(u32, int), (Seq<char>, int)>((v, r + 6)));
        vstd::utf8::char_u32_cast(c, v);
        assert(k == 6);
        assert(b[r] == b.subrange(r, r + k)[0] && b[r + 1] == b.subrange(r, r + k)[1]);
        assert(e[0] == '\\' && e[1] == 'u');
        assert(eb[0] == 0x5C && eb[1] == 0x75);
        assert(b[r] == 0x5C && b[r + 1] == 0x75);
        assert(crate::json_parse::unicode_escape(b, r + 2) == Ok::<(char, int), (Seq<char>, int)>((c, r + 6)));
}

#[verifier::rlimit(100)]
proof fn lemma_escape_plain(b: Seq<u8>, r: int, c: char, acc: Seq<char>)
    requires
        0 <= r,
        r + encode_utf8(escape_char(c)).len() < b.len(),
        b.subrange(r, r + encode_utf8(escape_char(c)).len()) == encode_utf8(escape_char(c)),
        !(c == '"' || c == '\\' || c == '\u{8}' || c == '\u{c}' || c == '\n' || c == '\r' || c == '\t'),
        (c as u32) >= 0x20,
    ensures
        crate::json_parse::str_body(b, r, acc) == crate::json_parse::str_body(
            b,
            r + encode_utf8(escape_char(c)).len(),
            acc.push(c),
        ),
{
    let e = escape_char(c);
    let k = encode_utf8(e).len() as int;
        let sc = c as u32;
        vstd::utf8::char_is_scalar(c);
        assert(e == seq![c]);
        assert(encode_utf8(e) =~= encode_scalar(sc)) by {
            assert(e.drop_first() =~= Seq::<char>::empty());
            assert(encode_utf8(e.drop_first()) == Seq::<u8>::empty());
            assert(e[0] == c);
        }
        let seg = b.subrange(r, r + k);
        assert(seg == encode_utf8(seq![c]));
        vstd::utf8::encode_utf8_valid_utf8(seq![c]);
        vstd::utf8::encode_utf8_decode_utf8(seq![c]);
        assert(b[r] == seg[0]);
        lemma_leading_byte(sc);
        assert(decode_utf8_of_char(c));
        assert(acc + seq![c] =~= acc.push(c));
        assert(vstd::utf8::valid_utf8(b.subrange(r, r + k)));
        assert(crate::json_parse::utf8_len_spec(b[r]) == k);
}

spec fn decode_utf8_of_char(c: char) -> bool {
    vstd::utf8::decode_utf8(encode_utf8(seq![c])) == seq![c]
}

/// The first byte of a scalar's encoding announces its length, and is
/// neither a quote, a backslash nor a control byte for scalars from
/// `0x20` that are not `"` or `\`.
proof fn lemma_leading_byte(v: u32)
    requires
        vstd::utf8::is_scalar(v),
        v >= 0x20,
        v != 0x22,
        v != 0x5C,
    ensures
        crate::json_parse::utf8_len_spec(encode_scalar(v)[0]) == encode_scalar(v).len(),
        encode_scalar(v)[0] != 0x22,
        encode_scalar(v)[0] != 0x5C,
        encode_scalar(v)[0] > 0x1F,
{
    if vstd::utf8::has_width_1_encoding(v) {
        assert(vstd::utf8::leading_byte_width_1(v) == v as u8) by (bit_vector)
            requires
                v <= 0x7F,
        ;
    } else if vstd::utf8::has_width_2_encoding(v) {
        let x = vstd::utf8::leading_byte_width_2(v);
        assert(0xC0 <= (0xC0 | ((v >> 6) & 0x1F) as u8) <= 0xDF) by (bit_vector);
    } else if vstd::utf8::has_width_3_encoding(v) {
        assert(0xE0 <= (0xE0 | ((v >> 12) & 0x0F) as u8) <= 0xEF) by (bit_vector);
    } else {
        assert(0xF0 <= (0xF0 | ((v >> 18) & 0x7) as u8)) by (bit_vector);
    }
}

/// The escaped characters of `rest` and a closing quote read back as
/// `rest`.
pub proof fn lemma_str_rest(b: Seq<u8>, r: int, rest: Seq<char>, acc: Seq<char>)
    requires
        0 <= r,
        r + encode_utf8(escape_str(rest) + seq!['"']).len() <= b.len(),
        b.subrange(r, r + encode_utf8(escape_str(rest) + seq!['"']).len()) == encode_utf8(
            escape_str(rest) + seq!['"'],
        ),
    ensures
        crate::json_parse::str_body(b, r, acc) == Ok::<(Seq<char>, int), (Seq<char>, int)>(
            (acc + rest, r + encode_utf8(escape_str(rest) + seq!['"']).len()),
        ),
    decreases rest.len(),
{
    let m = encode_utf8(escape_str(rest) + seq!['"']).len() as int;
    if rest.len() == 0 {
        assert(escape_str(rest) + seq!['"'] =~= seq!['"']);
        lemma_encode_ascii(seq!['"']);
        assert(b[r] == b.subrange(r, r + m)[0]);
        assert(acc + rest =~= acc);
    } else {
        let c = rest[0];
        let tail = rest.drop_first();
        assert(rest =~= seq![c] + tail);
        lemma_escape_concat(seq![c], tail);
        assert(escape_str(seq![c]) == escape_char(c)) by {
            assert(seq![c].drop_last() =~= Seq::<char>::empty());
            assert(escape_str(Seq::<char>::empty()) == Seq::<char>::empty());
            assert(Seq::<char>::empty() + escape_char(c) =~= escape_char(c));
        }
        let ec = escape_char(c);
        let et = escape_str(tail) + seq!['"'];
        assert(escape_str(rest) + seq!['"'] =~= ec + et);
        lemma_encode_concat(ec, et);
        let k = encode_utf8(ec).len() as int;
        let mt = encode_utf8(et).len() as int;
        assert(m == k + mt);
        lemma_encode_concat(escape_str(tail), seq!['"']);
        lemma_encode_ascii(seq!['"']);
        assert(mt >= 1);
        let whole = encode_utf8(ec) + encode_utf8(et);
        assert(b.subrange(r, r + m) == whole);
        assert(whole.subrange(0, k) =~= encode_utf8(ec));
        assert(whole.subrange(k, m) =~= encode_utf8(et));
        assert(b.subrange(r, r + k) =~= b.subrange(r, r + m).subrange(0, k));
        assert(b.subrange(r + k, r + k + mt) =~= b.subrange(r, r + m).subrange(k, m));
        lemma_escape_char_reads(b, r, c, acc);
        lemma_str_rest(b, r + k, tail, acc.push(c));
        assert(acc.push(c) + tail =~= acc + rest);
    }
}

/// A string literal the writer produced reads back as its text.
pub proof fn lemma_string_reads(b: Seq<u8>, p: int, s: Seq<char>)
    requires
        0 <= p,
        p + encode_utf8(quoted(s)).len() <= b.len(),
        b.subrange(p, p + encode_utf8(quoted(s)).len()) == encode_utf8(quoted(s)),
    ensures
        crate::json_parse::string_spec(b, p) == Ok::<(Seq<char>, int), (Seq<char>, int)>(
            (s, p + encode_utf8(quoted(s)).len()),
        ),
        b[p] == 0x22,
{
    let n = encode_utf8(quoted(s)).len() as int;
    let body = escape_str(s) + seq!['"'];
    assert(quoted(s) =~= seq!['"'] + body);
    lemma_encode_concat(seq!['"'], body);
    lemma_encode_ascii(seq!['"']);
    assert(b[p] == b.subrange(p, p + n)[0]);
    let m = encode_utf8(body).len() as int;
    let whole = encode_utf8(seq!['"']) + encode_utf8(body);
    assert(b.subrange(p, p + n) == whole);
    assert(whole.subrange(1, n) =~= encode_utf8(body));
    assert(b.subrange(p + 1, p + 1 + m) =~= b.subrange(p, p + n).subrange(1, n));
    lemma_str_rest(b, p + 1, s, Seq::empty());
    assert(Seq::<char>::empty() + s =~= s);
}

/// Indentation made of spaces only.
pub open spec fn all_spaces(pad: Seq<char>) -> bool {
    forall|i: int| 0 <= i < pad.len() ==> pad[i] == ' '
}

/// A copy of `x + y` at `p` in `b` holds a copy of `y` at `p + |x|`.
pub proof fn lemma_sub_split(b: Seq<u8>, p: int, x: Seq<u8>, y: Seq<u8>)
    requires
        0 <= p,
        p + x.len() + y.len() <= b.len(),
        b.subrange(p, p + x.len() + y.len()) == x + y,
    ensures
        b.subrange(p, p + x.len()) == x,
        b.subrange(p + x.len(), p + x.len() + y.len()) == y,
{
    assert(b.subrange(p, p + x.len()) =~= (x + y).subrange(0, x.len() as int));
    assert((x + y).subrange(0, x.len() as int) =~= x);
    assert(b.subrange(p + x.len(), p + x.len() + y.len()) =~= (x + y).subrange(
        x.len() as int,
        (x.len() + y.len()) as int,
    ));
    assert((x + y).subrange(x.len() as int, (x.len() + y.len()) as int) =~= y);
}

/// The bytes of a line break and indentation are whitespace.
pub proof fn lemma_newline_bytes(pretty: bool, pad: Seq<char>)
    requires
        all_spaces(pad),
    ensures
        forall|i: int|
            0 <= i < encode_utf8(newline(pretty, pad)).len() ==> is_ws(
                #[trigger] encode_utf8(newline(pretty, pad))[i],
            ),
{
    let nl = newline(pretty, pad);
    assert(is_ascii_chars(nl)) by {
        if pretty {
            assert forall|i: int| 0 <= i < nl.len() implies '\0' <= #[trigger] nl[i] <= '\u{7f}' by {
                if i > 0 {
                    assert(nl[i] == pad[i - 1]);
                }
            }
        }
    }
    lemma_encode_ascii(nl);
    assert forall|i: int| 0 <= i < encode_utf8(nl).len() implies is_ws(
        #[trigger] encode_utf8(nl)[i],
    ) by {
        if pretty && i > 0 {
            assert(nl[i] == pad[i - 1]);
        }
    }
}

pub proof fn lemma_deeper_spaces(pad: Seq<char>)
    requires
        all_spaces(pad),
    ensures
        all_spaces(deeper(pad)),
{
}

/// The encoding of a one-character ASCII text is that character's byte.
pub proof fn lemma_encode_char(c: char)
    requires
        (c as u32) < 0x80,
    ensures
        encode_utf8(seq![c]) == seq![c as u8],
{
    assert(is_ascii_chars(seq![c]));
    lemma_encode_ascii(seq![c]);
    assert(encode_utf8(seq![c]) =~= seq![c as u8]);
}

/// A number text the parser reads back, whole, as that same float text.
pub open spec fn float_ok(t: Seq<char>) -> bool {
    &&& t.len() > 0
    &&& is_ascii_chars(t)
    &&& number_spec(ascii_bytes(t), 0) == Ok::<(Json, int), (Seq<char>, int)>(
        (Json::Float(t), t.len() as int),
    )
}

/// A value the writer's text reads back as, when it sits `d` levels
/// deep: no nesting past the parser's limit, non-negative integers kept
/// as unsigned, float texts that read back as themselves.
pub open spec fn readable(v: Json, d: nat) -> bool
    decreases v,
{
    d <= 128 && match v {
        Json::Int(i) => i < 0,
        Json::Float(t) => float_ok(t),
        Json::Array(items) => readable_items(items, d + 1),
        Json::Object(pairs) => readable_pairs(pairs, d + 1),
        _ => true,
    }
}

pub open spec fn readable_items(items: Seq<Json>, d: nat) -> bool
    decreases items,
{
    if items.len() == 0 {
        true
    } else {
        readable_items(items.drop_last(), d) && readable(items.last(), d)
    }
}

pub open spec fn readable_pairs(pairs: Seq<(Seq<char>, Json)>, d: nat) -> bool
    decreases pairs,
{
    if pairs.len() == 0 {
        true
    } else {
        readable_pairs(pairs.drop_last(), d) && readable(pairs.last().1, d)
    }
}

pub proof fn lemma_readable_item(items: Seq<Json>, d: nat, k: int)
    requires
        readable_items(items, d),
        0 <= k < items.len(),
    ensures
        readable(items[k], d),
    decreases items.len(),
{
    if k < items.len() - 1 {
        assert(items.drop_last()[k] == items[k]);
        lemma_readable_item(items.drop_last(), d, k);
    }
}

pub proof fn lemma_readable_pair(pairs: Seq<(Seq<char>, Json)>, d: nat, k: int)
    requires
        readable_pairs(pairs, d),
        0 <= k < pairs.len(),
    ensures
        readable(pairs[k].1, d),
    decreases pairs.len(),
{
    if k < pairs.len() - 1 {
        assert(pairs.drop_last()[k] == pairs[k]);
        lemma_readable_pair(pairs.drop_last(), d, k);
    }
}

/// The bytes the writer produces for `v`.
pub open spec fn enc(v: Json, pretty: bool, pad: Seq<char>) -> Seq<u8> {
    encode_utf8(json_text(v, pretty, pad))
}

/// The writer's text of a scalar reads back as that scalar.
#[verifier::rlimit(100)]
pub proof fn lemma_scalar_reads(b: Seq<u8>, p: int, v: Json, d: nat, pretty: bool, pad: Seq<char>)
    requires
        readable(v, d),
        !(v is Array || v is Object),
        0 <= p,
        p + enc(v, pretty, pad).len() <= b.len(),
        b.subrange(p, p + enc(v, pretty, pad).len()) == enc(v, pretty, pad),
        p + enc(v, pretty, pad).len() == b.len() || !continues_number(
            b[p + enc(v, pretty, pad).len()],
        ),
    ensures
        crate::json_parse::value_spec(b, p, d) == Ok::<(Json, int), (Seq<char>, int)>(
            (v, p + enc(v, pretty, pad).len()),
        ),
        enc(v, pretty, pad).len() > 0,
        starts_value(b[p]),
{
    let e = enc(v, pretty, pad);
    let n = e.len() as int;
    assert(b[p] == b.subrange(p, p + n)[0]) by {
        if n > 0 {
        }
    }
    match v {
        Json::Null => {
            let t = seq!['n', 'u', 'l', 'l'];
            assert(is_ascii_chars(t));
            lemma_encode_ascii(t);
            assert(e =~= crate::json_parse::null_bytes());
        },
        Json::Bool(x) => {
            if x {
                let t = seq!['t', 'r', 'u', 'e'];
                assert(is_ascii_chars(t));
                lemma_encode_ascii(t);
                assert(e =~= crate::json_parse::true_bytes());
            } else {
                let t = seq!['f', 'a', 'l', 's', 'e'];
                assert(is_ascii_chars(t));
                lemma_encode_ascii(t);
                assert(e =~= crate::json_parse::false_bytes());
            }
        },
        Json::UInt(u) => {
            let t = decimal_chars(u as nat);
            lemma_decimal_bytes(u as nat);
            lemma_encode_ascii(t);
            assert(e == ascii_bytes(t));
            lemma_uint_reads_back(u);
            lemma_number_window(ascii_bytes(t), b, p);
            assert(is_digit(ascii_bytes(t)[0]));
        },
        Json::Int(i) => {
            let m = (-i) as nat;
            let t = signed_decimal_chars(i as int);
            lemma_decimal_bytes(m);
            assert(t == seq!['-'] + decimal_chars(m));
            assert(is_ascii_chars(t)) by {
                assert forall|k: int| 0 <= k < t.len() implies '\0' <= #[trigger] t[k] <= '\u{7f}' by {
                    if k > 0 {
                        assert(t[k] == decimal_chars(m)[k - 1]);
                    }
                }
            }
            lemma_encode_ascii(t);
            assert(e == ascii_bytes(t));
            lemma_int_reads_back(i);
            lemma_number_window(ascii_bytes(t), b, p);
            assert(ascii_bytes(t)[0] == 0x2D);
        },
        Json::Float(t) => {
            lemma_encode_ascii(t);
            assert(e == ascii_bytes(t));
            lemma_number_window(ascii_bytes(t), b, p);
            let tb = ascii_bytes(t);
            assert(tb[0] == 0x2D || is_digit(tb[0]));
        },
        Json::Str(st) => {
            lemma_string_reads(b, p, st);
        },
        _ => {},
    }
    if v is Null {
        assert(b[p] == crate::json_parse::null_bytes()[0]);
    } else if v is Bool {
        assert(b[p] == 0x74 || b[p] == 0x66);
    }
}

/// A byte a value's text can start with.
pub open spec fn starts_value(c: u8) -> bool {
    c == 0x6E || c == 0x74 || c == 0x66 || c == 0x22 || c == 0x5B || c == 0x7B || c == 0x2D
        || is_digit(c)
}

/// The separator before element `k` of a list.
pub open spec fn sep(k: int) -> Seq<char> {
    if k > 0 {
        seq![',']
    } else {
        Seq::empty()
    }
}

/// The text of the first `k + 1` elements extends that of the first `k`.
pub proof fn lemma_array_step(items: Seq<Json>, k: int, pretty: bool, pad: Seq<char>)
    requires
        0 <= k < items.len(),
    ensures
        encode_utf8(array_body(items.take(k + 1), pretty, pad)) == encode_utf8(
            array_body(items.take(k), pretty, pad),
        ) + encode_utf8(sep(k)) + encode_utf8(newline(pretty, pad)) + enc(items[k], pretty, pad),
{
    let t = items.take(k + 1);
    assert(t.drop_last() =~= items.take(k));
    assert(t.last() == items[k]);
    let a = array_body(items.take(k), pretty, pad);
    assert(array_body(t, pretty, pad) == a + sep(k) + newline(pretty, pad) + json_text(items[k], pretty, pad));
    lemma_encode_concat(a + sep(k) + newline(pretty, pad), json_text(items[k], pretty, pad));
    lemma_encode_concat(a + sep(k), newline(pretty, pad));
    lemma_encode_concat(a, sep(k));
}

/// The text of the first `k` elements begins the text of all of them.
pub proof fn lemma_array_prefix(items: Seq<Json>, k: int, pretty: bool, pad: Seq<char>)
    requires
        0 <= k <= items.len(),
    ensures
        encode_utf8(array_body(items.take(k), pretty, pad)).len() <= encode_utf8(
            array_body(items, pretty, pad),
        ).len(),
        encode_utf8(array_body(items, pretty, pad)).subrange(
            0,
            encode_utf8(array_body(items.take(k), pretty, pad)).len() as int,
        ) == encode_utf8(array_body(items.take(k), pretty, pad)),
    decreases items.len() - k,
{
    if k == items.len() {
        assert(items.take(k) =~= items);
        let e = encode_utf8(array_body(items, pretty, pad));
        assert(e.subrange(0, e.len() as int) =~= e);
    } else {
        lemma_array_prefix(items, k + 1, pretty, pad);
        lemma_array_step(items, k, pretty, pad);
        let full = encode_utf8(array_body(items, pretty, pad));
        let a1 = encode_utf8(array_body(items.take(k + 1), pretty, pad));
        let a0 = encode_utf8(array_body(items.take(k), pretty, pad));
        assert(full.subrange(0, a0.len() as int) =~= a1.subrange(0, a0.len() as int));
        assert(a1.subrange(0, a0.len() as int) =~= a0);
    }
}

/// The text of the first `k + 1` members extends that of the first `k`.
pub proof fn lemma_object_step(pairs: Seq<(Seq<char>, Json)>, k: int, pretty: bool, pad: Seq<char>)
    requires
        0 <= k < pairs.len(),
    ensures
        encode_utf8(object_body(pairs.take(k + 1), pretty, pad)) == encode_utf8(
            object_body(pairs.take(k), pretty, pad),
        ) + encode_utf8(sep(k)) + encode_utf8(newline(pretty, pad)) + encode_utf8(
            quoted(pairs[k].0),
        ) + encode_utf8(colon(pretty)) + enc(pairs[k].1, pretty, pad),
{
    let t = pairs.take(k + 1);
    assert(t.drop_last() =~= pairs.take(k));
    assert(t.last() == pairs[k]);
    let a = object_body(pairs.take(k), pretty, pad);
    let x1 = a + sep(k);
    let x2 = x1 + newline(pretty, pad);
    let x3 = x2 + quoted(pairs[k].0);
    let x4 = x3 + colon(pretty);
    assert(object_body(t, pretty, pad) == x4 + json_text(pairs[k].1, pretty, pad));
    lemma_encode_concat(x4, json_text(pairs[k].1, pretty, pad));
    lemma_encode_concat(x3, colon(pretty));
    lemma_encode_concat(x2, quoted(pairs[k].0));
    lemma_encode_concat(x1, newline(pretty, pad));
    lemma_encode_concat(a, sep(k));
}

/// The separator between a key and its value.
pub open spec fn colon(pretty: bool) -> Seq<char> {
    if pretty {
        seq![':', ' ']
    } else {
        seq![':']
    }
}

/// The text of the first `k` members begins the text of all of them.
pub proof fn lemma_object_prefix(pairs: Seq<(Seq<char>, Json)>, k: int, pretty: bool, pad: Seq<char>)
    requires
        0 <= k <= pairs.len(),
    ensures
        encode_utf8(object_body(pairs.take(k), pretty, pad)).len() <= encode_utf8(
            object_body(pairs, pretty, pad),
        ).len(),
        encode_utf8(object_body(pairs, pretty, pad)).subrange(
            0,
            encode_utf8(object_body(pairs.take(k), pretty, pad)).len() as int,
        ) == encode_utf8(object_body(pairs.take(k), pretty, pad)),
    decreases pairs.len() - k,
{
    if k == pairs.len() {
        assert(pairs.take(k) =~= pairs);
        let e = encode_utf8(object_body(pairs, pretty, pad));
        assert(e.subrange(0, e.len() as int) =~= e);
    } else {
        lemma_object_prefix(pairs, k + 1, pretty, pad);
        lemma_object_step(pairs, k, pretty, pad);
        let full = encode_utf8(object_body(pairs, pretty, pad));
        let a1 = encode_utf8(object_body(pairs.take(k + 1), pretty, pad));
        let a0 = encode_utf8(object_body(pairs.take(k), pretty, pad));
        assert(full.subrange(0, a0.len() as int) =~= a1.subrange(0, a0.len() as int));
        assert(a1.subrange(0, a0.len() as int) =~= a0);
    }
}

/// The writer's text of a value reads back as that value.
pub proof fn lemma_value(b: Seq<u8>, p: int, v: Json, d: nat, pretty: bool, pad: Seq<char>)
    requires
        readable(v, d),
        all_spaces(pad),
        0 <= p,
        p + enc(v, pretty, pad).len() <= b.len(),
        b.subrange(p, p + enc(v, pretty, pad).len()) == enc(v, pretty, pad),
        p + enc(v, pretty, pad).len() == b.len() || !continues_number(
            b[p + enc(v, pretty, pad).len()],
        ),
    ensures
        crate::json_parse::value_spec(b, p, d) == Ok::<(Json, int), (Seq<char>, int)>(
            (v, p + enc(v, pretty, pad).len()),
        ),
        enc(v, pretty, pad).len() > 0,
        starts_value(b[p]),
    decreases v, 2int, 0int,
{
    match v {
        Json::Array(_) => {
            lemma_array(b, p, v, d, pretty, pad);
        },
        Json::Object(_) => {
            lemma_object(b, p, v, d, pretty, pad);
        },
        _ => {
            lemma_scalar_reads(b, p, v, d, pretty, pad);
        },
    }
}

/// An array's text reads back as the array.
#[verifier::rlimit(100)]
pub proof fn lemma_array(b: Seq<u8>, p: int, v: Json, d: nat, pretty: bool, pad: Seq<char>)
    requires
        v is Array,
        readable(v, d),
        all_spaces(pad),
        0 <= p,
        p + enc(v, pretty, pad).len() <= b.len(),
        b.subrange(p, p + enc(v, pretty, pad).len()) == enc(v, pretty, pad),
    ensures
        crate::json_parse::value_spec(b, p, d) == Ok::<(Json, int), (Seq<char>, int)>(
            (v, p + enc(v, pretty, pad).len()),
        ),
        enc(v, pretty, pad).len() > 0,
        b[p] == 0x5B,
    decreases v, 1int, 0int,
{
    let items = v->Array_0;
    let e = enc(v, pretty, pad);
    let n = e.len() as int;
    lemma_encode_char('[');
    lemma_encode_char(']');
    if items.len() == 0 {
        assert(json_text(v, pretty, pad) == seq!['[', ']']);
        assert(is_ascii_chars(seq!['[', ']']));
        lemma_encode_ascii(seq!['[', ']']);
        assert(e =~= seq![0x5Bu8, 0x5D]);
        assert(b[p] == e[0] && b[p + 1] == e[1]) by {
            assert(b[p] == b.subrange(p, p + n)[0]);
            assert(b[p + 1] == b.subrange(p, p + n)[1]);
        }
        lemma_skip_ws(b, p + 1, 0);
        assert(Json::Array(Seq::empty()) == v) by {
            assert(items =~= Seq::<Json>::empty());
        }
    } else {
        let pad2 = deeper(pad);
        let body = array_body(items, pretty, pad2);
        let nlc = newline(pretty, pad);
        let t = json_text(v, pretty, pad);
        assert(t == seq!['['] + body + nlc + seq![']']);
        lemma_encode_concat(seq!['['] + body + nlc, seq![']']);
        lemma_encode_concat(seq!['['] + body, nlc);
        lemma_encode_concat(seq!['['], body);
        let bb = encode_utf8(body);
        let nl = encode_utf8(nlc);
        assert(e == seq![0x5Bu8] + bb + nl + seq![0x5Du8]);
        lemma_sub_split(b, p, seq![0x5Bu8] + bb + nl, seq![0x5Du8]);
        lemma_sub_split(b, p, seq![0x5Bu8] + bb, nl);
        lemma_sub_split(b, p, seq![0x5Bu8], bb);
        assert(b[p] == 0x5B) by {
            assert(b[p] == b.subrange(p, p + 1)[0]);
        }
        // the first element starts after the line break
        lemma_deeper_spaces(pad);
        lemma_array_step(items, 0, pretty, pad2);
        assert(items.take(0) =~= Seq::<Json>::empty());
        assert(array_body(items.take(0), pretty, pad2) == Seq::<char>::empty());
        assert(encode_utf8(sep(0)) == Seq::<u8>::empty());
        lemma_elements(b, p, v, d, pretty, pad, 0);
        let nl2 = encode_utf8(newline(pretty, pad2));
        lemma_newline_bytes(pretty, pad2);
        lemma_array_prefix(items, 1, pretty, pad2);
        let a1 = encode_utf8(array_body(items.take(1), pretty, pad2));
        assert(a1 == Seq::<u8>::empty() + Seq::<u8>::empty() + nl2 + enc(items[0], pretty, pad2));
        assert(b.subrange(p + 1, p + 1 + a1.len()) =~= bb.subrange(0, a1.len() as int));
        let s0 = p + 1 + nl2.len();
        assert forall|i: int| p + 1 <= i < s0 implies is_ws(#[trigger] b[i]) by {
            assert(b[i] == b.subrange(p + 1, p + 1 + a1.len())[i - p - 1]);
            assert(a1[i - p - 1] == nl2[i - p - 1]);
        }
        lemma_skip_ws(b, p + 1, nl2.len() as int);
        assert(b[s0] != 0x5D);
    }
}

/// Positions inside an array's text: where element `k` starts.
pub open spec fn elem_start(items: Seq<Json>, k: int, p: int, pretty: bool, pad: Seq<char>) -> int {
    p + 1 + encode_utf8(array_body(items.take(k), pretty, deeper(pad))).len() + encode_utf8(sep(k)).len()
        + encode_utf8(newline(pretty, deeper(pad))).len()
}

/// Positions inside an array's text: where element `k` ends.
pub open spec fn elem_end(items: Seq<Json>, k: int, p: int, pretty: bool, pad: Seq<char>) -> int {
    p + 1 + encode_utf8(array_body(items.take(k + 1), pretty, deeper(pad))).len()
}

/// Where the bytes of element `k` of an array's text lie, and what
/// surrounds them.
#[verifier::rlimit(100)]
pub proof fn lemma_elem_layout(b: Seq<u8>, p: int, v: Json, pretty: bool, pad: Seq<char>, k: int)
    requires
        v is Array,
        v->Array_0.len() > 0,
        0 <= k < v->Array_0.len(),
        all_spaces(pad),
        0 <= p,
        p + enc(v, pretty, pad).len() <= b.len(),
        b.subrange(p, p + enc(v, pretty, pad).len()) == enc(v, pretty, pad),
    ensures
        ({
            let items = v->Array_0;
            let n = enc(v, pretty, pad).len() as int;
            let sk = elem_start(items, k, p, pretty, pad);
            let ek = elem_end(items, k, p, pretty, pad);
            let ie = enc(items[k], pretty, deeper(pad));
            let w = encode_utf8(newline(pretty, deeper(pad))).len() as int;
            &&& p + 1 <= sk - w
            &&& sk + ie.len() == ek
            &&& ek < p + n
            &&& b.subrange(sk, ek) == ie
            &&& (forall|i: int| sk - w <= i < sk ==> is_ws(#[trigger] b[i]))
            &&& (k == 0 ==> sk - w == p + 1)
            &&& (k > 0 ==> sk - w == elem_end(items, k - 1, p, pretty, pad) + 1)
            &&& (k + 1 < items.len() ==> b[ek] == 0x2C)
            &&& (k + 1 == items.len() ==> skip_ws_spec(b, ek) == p + n - 1 && !continues_number(b[ek]))
            &&& b[p + n - 1] == 0x5D
        }),
{
    let items = v->Array_0;
    let m = items.len() as int;
    let e = enc(v, pretty, pad);
    let n = e.len() as int;
    let pad2 = deeper(pad);
    lemma_deeper_spaces(pad);
    let body = array_body(items, pretty, pad2);
    let nlc = newline(pretty, pad);
    lemma_encode_char('[');
    lemma_encode_char(']');
    lemma_encode_char(',');
    assert(json_text(v, pretty, pad) == seq!['['] + body + nlc + seq![']']);
    lemma_encode_concat(seq!['['] + body + nlc, seq![']']);
    lemma_encode_concat(seq!['['] + body, nlc);
    lemma_encode_concat(seq!['['], body);
    let bb = encode_utf8(body);
    let nl = encode_utf8(nlc);
    assert(e == seq![0x5Bu8] + bb + nl + seq![0x5Du8]);
    lemma_sub_split(b, p, seq![0x5Bu8] + bb + nl, seq![0x5Du8]);
    lemma_sub_split(b, p, seq![0x5Bu8] + bb, nl);
    lemma_sub_split(b, p, seq![0x5Bu8], bb);
    assert(b[p + n - 1] == b.subrange(p + 1 + bb.len() + nl.len(), p + n)[0]);
    // the element's bytes
    lemma_array_step(items, k, pretty, pad2);
    lemma_array_prefix(items, k + 1, pretty, pad2);
    let a0 = encode_utf8(array_body(items.take(k), pretty, pad2));
    let a1 = encode_utf8(array_body(items.take(k + 1), pretty, pad2));
    let se = encode_utf8(sep(k));
    let nl2 = encode_utf8(newline(pretty, pad2));
    let ie = enc(items[k], pretty, pad2);
    assert(b.subrange(p + 1, p + 1 + a1.len()) =~= bb.subrange(0, a1.len() as int));
    lemma_sub_split(b, p + 1, a0 + se + nl2, ie);
    lemma_sub_split(b, p + 1, a0 + se, nl2);
    let sk = elem_start(items, k, p, pretty, pad);
    assert(sk == p + 1 + a0.len() + se.len() + nl2.len());
    let ek = sk + ie.len();
    assert(ek == p + 1 + a1.len());
    if k == 0 {
        assert(items.take(0) =~= Seq::<Json>::empty());
        assert(a0.len() == 0);
    } else {
        assert(items.take(k - 1 + 1) == items.take(k));
    }
    // the indentation before the element
    let rk = p + 1 + a0.len() + se.len();
    lemma_newline_bytes(pretty, pad2);
    assert forall|i: int| rk <= i < sk implies is_ws(#[trigger] b[i]) by {
        assert(b[i] == b.subrange(rk, sk)[i - rk]);
    }
    // what follows the element
    if k + 1 < m {
        lemma_array_step(items, k + 1, pretty, pad2);
        lemma_array_prefix(items, k + 2, pretty, pad2);
        let a2 = encode_utf8(array_body(items.take(k + 2), pretty, pad2));
        assert(encode_utf8(sep(k + 1)) == seq![0x2Cu8]);
        assert(b.subrange(p + 1, p + 1 + a2.len()) =~= bb.subrange(0, a2.len() as int));
        assert(b[ek] == a2[a1.len() as int]);
        assert(b[ek] == 0x2C);
    } else {
        assert(items.take(k + 1) =~= items);
        assert(a1 == bb);
        lemma_newline_bytes(pretty, pad);
        let c = ek + nl.len();
        assert forall|i: int| ek <= i < c implies is_ws(#[trigger] b[i]) by {
            assert(b[i] == b.subrange(p + 1 + bb.len(), p + 1 + bb.len() + nl.len())[i - ek]);
        }
        lemma_skip_ws(b, ek, nl.len() as int);
        if nl.len() > 0 {
            assert(is_ws(b[ek]));
        }
    }
}

/// Reading elements from element `k` on gives the whole array.
#[verifier::rlimit(100)]
pub proof fn lemma_elements(b: Seq<u8>, p: int, v: Json, d: nat, pretty: bool, pad: Seq<char>, k: int)
    requires
        v is Array,
        v->Array_0.len() > 0,
        0 <= k < v->Array_0.len(),
        readable(v, d),
        all_spaces(pad),
        0 <= p,
        p + enc(v, pretty, pad).len() <= b.len(),
        b.subrange(p, p + enc(v, pretty, pad).len()) == enc(v, pretty, pad),
    ensures
        crate::json_parse::elements_spec(
            b,
            elem_start(v->Array_0, k, p, pretty, pad),
            d,
            v->Array_0.take(k),
        ) == Ok::<(Json, int), (Seq<char>, int)>((v, p + enc(v, pretty, pad).len())),
        starts_value(b[elem_start(v->Array_0, k, p, pretty, pad)]),
    decreases v, 0int, v->Array_0.len() - k,
{
    let items = v->Array_0;
    let m = items.len() as int;
    let pad2 = deeper(pad);
    lemma_deeper_spaces(pad);
    lemma_elem_layout(b, p, v, pretty, pad, k);
    let sk = elem_start(items, k, p, pretty, pad);
    let ek = elem_end(items, k, p, pretty, pad);
    lemma_readable_item(items, d + 1, k);
    assert(decreases_to!(v => items));
    assert(decreases_to!(items => items[k]));
    lemma_value(b, sk, items[k], d + 1, pretty, pad2);
    lemma_skip_ws(b, sk, 0);
    let acc = items.take(k);
    assert(acc.push(items[k]) =~= items.take(k + 1));
    if k + 1 < m {
        lemma_skip_ws(b, ek, 0);
        lemma_elements(b, p, v, d, pretty, pad, k + 1);
        lemma_elem_layout(b, p, v, pretty, pad, k + 1);
        let sk1 = elem_start(items, k + 1, p, pretty, pad);
        let w = encode_utf8(newline(pretty, pad2)).len() as int;
        lemma_skip_ws(b, sk1 - w, w);
        lemma_skip_ws(b, sk1, 0);
        let acc2 = items.take(k + 1);
        assert(crate::json_parse::elements_spec(b, ek + 1, d, acc2)
            == crate::json_parse::elements_spec(b, sk1, d, acc2));
    } else {
        assert(items.take(k + 1) =~= items);
        assert(Json::Array(items) == v);
    }
}

/// The bytes between a key and its value.
pub proof fn lemma_colon_bytes(pretty: bool)
    ensures
        encode_utf8(colon(pretty)) == (if pretty {
            seq![0x3Au8, 0x20u8]
        } else {
            seq![0x3Au8]
        }),
{
    let c = colon(pretty);
    assert(is_ascii_chars(c));
    lemma_encode_ascii(c);
    if pretty {
        assert(encode_utf8(c) =~= seq![0x3Au8, 0x20u8]);
    } else {
        assert(encode_utf8(c) =~= seq![0x3Au8]);
    }
}

/// An object's text reads back as the object.
#[verifier::rlimit(100)]
pub proof fn lemma_object(b: Seq<u8>, p: int, v: Json, d: nat, pretty: bool, pad: Seq<char>)
    requires
        v is Object,
        readable(v, d),
        all_spaces(pad),
        0 <= p,
        p + enc(v, pretty, pad).len() <= b.len(),
        b.subrange(p, p + enc(v, pretty, pad).len()) == enc(v, pretty, pad),
    ensures
        crate::json_parse::value_spec(b, p, d) == Ok::<(Json, int), (Seq<char>, int)>(
            (v, p + enc(v, pretty, pad).len()),
        ),
        enc(v, pretty, pad).len() > 0,
        b[p] == 0x7B,
    decreases v, 1int, 0int,
{
    let pairs = v->Object_0;
    let e = enc(v, pretty, pad);
    let n = e.len() as int;
    lemma_encode_char('{');
    lemma_encode_char('}');
    if pairs.len() == 0 {
        assert(json_text(v, pretty, pad) == seq!['{', '}']);
        assert(is_ascii_chars(seq!['{', '}']));
        lemma_encode_ascii(seq!['{', '}']);
        assert(e =~= seq![0x7Bu8, 0x7D]);
        assert(b[p] == e[0] && b[p + 1] == e[1]) by {
            assert(b[p] == b.subrange(p, p + n)[0]);
            assert(b[p + 1] == b.subrange(p, p + n)[1]);
        }
        lemma_skip_ws(b, p + 1, 0);
        assert(Json::Object(Seq::empty()) == v) by {
            assert(pairs =~= Seq::<(Seq<char>, Json)>::empty());
        }
    } else {
        let pad2 = deeper(pad);
        let body = object_body(pairs, pretty, pad2);
        let nlc = newline(pretty, pad);
        let t = json_text(v, pretty, pad);
        assert(t == seq!['{'] + body + nlc + seq!['}']);
        lemma_encode_concat(seq!['{'] + body + nlc, seq!['}']);
        lemma_encode_concat(seq!['{'] + body, nlc);
        lemma_encode_concat(seq!['{'], body);
        let bb = encode_utf8(body);
        let nl = encode_utf8(nlc);
        assert(e == seq![0x7Bu8] + bb + nl + seq![0x7Du8]);
        lemma_sub_split(b, p, seq![0x7Bu8] + bb + nl, seq![0x7Du8]);
        lemma_sub_split(b, p, seq![0x7Bu8] + bb, nl);
        lemma_sub_split(b, p, seq![0x7Bu8], bb);
        assert(b[p] == 0x7B) by {
            assert(b[p] == b.subrange(p, p + 1)[0]);
        }
        // the first key starts after the line break
        lemma_deeper_spaces(pad);
        lemma_object_step(pairs, 0, pretty, pad2);
        assert(pairs.take(0) =~= Seq::<(Seq<char>, Json)>::empty());
        assert(object_body(pairs.take(0), pretty, pad2) == Seq::<char>::empty());
        assert(encode_utf8(sep(0)) == Seq::<u8>::empty());
        lemma_members(b, p, v, d, pretty, pad, 0);
        let nl2 = encode_utf8(newline(pretty, pad2));
        lemma_newline_bytes(pretty, pad2);
        lemma_object_prefix(pairs, 1, pretty, pad2);
        let a1 = encode_utf8(object_body(pairs.take(1), pretty, pad2));
        let rest = encode_utf8(quoted(pairs[0].0)) + encode_utf8(colon(pretty)) + enc(
            pairs[0].1,
            pretty,
            pad2,
        );
        assert(a1 =~= nl2 + rest);
        assert(b.subrange(p + 1, p + 1 + a1.len()) =~= bb.subrange(0, a1.len() as int));
        let s0 = p + 1 + nl2.len();
        assert forall|i: int| p + 1 <= i < s0 implies is_ws(#[trigger] b[i]) by {
            assert(b[i] == b.subrange(p + 1, p + 1 + a1.len())[i - p - 1]);
            assert(a1[i - p - 1] == nl2[i - p - 1]);
        }
        lemma_skip_ws(b, p + 1, nl2.len() as int);
        assert(b[s0] != 0x7D);
    }
}

/// Positions inside an object's text: where the key of member `k` starts.
pub open spec fn member_start(
    pairs: Seq<(Seq<char>, Json)>,
    k: int,
    p: int,
    pretty: bool,
    pad: Seq<char>,
) -> int {
    p + 1 + encode_utf8(object_body(pairs.take(k), pretty, deeper(pad))).len() + encode_utf8(
        sep(k),
    ).len() + encode_utf8(newline(pretty, deeper(pad))).len()
}

/// Positions inside an object's text: where member `k` ends.
pub open spec fn member_end(
    pairs: Seq<(Seq<char>, Json)>,
    k: int,
    p: int,
    pretty: bool,
    pad: Seq<char>,
) -> int {
    p + 1 + encode_utf8(object_body(pairs.take(k + 1), pretty, deeper(pad))).len()
}

/// Where the bytes of member `k` of an object's text lie, and what
/// surrounds them.
#[verifier::rlimit(100)]
pub proof fn lemma_member_layout(
    b: Seq<u8>,
    p: int,
    v: Json,
    pretty: bool,
    pad: Seq<char>,
    k: int,
)
    requires
        v is Object,
        v->Object_0.len() > 0,
        0 <= k < v->Object_0.len(),
        all_spaces(pad),
        0 <= p,
        p + enc(v, pretty, pad).len() <= b.len(),
        b.subrange(p, p + enc(v, pretty, pad).len()) == enc(v, pretty, pad),
    ensures
        ({
            let pairs = v->Object_0;
            let n = enc(v, pretty, pad).len() as int;
            let sk = member_start(pairs, k, p, pretty, pad);
            let kq = encode_utf8(quoted(pairs[k].0));
            let r2 = sk + kq.len();
            let r5 = r2 + encode_utf8(colon(pretty)).len();
            let ek = member_end(pairs, k, p, pretty, pad);
            let ve = enc(pairs[k].1, pretty, deeper(pad));
            let w = encode_utf8(newline(pretty, deeper(pad))).len() as int;
            &&& p + 1 <= sk - w
            &&& r5 + ve.len() == ek
            &&& ek < p + n
            &&& b.subrange(sk, r2) == kq
            &&& b.subrange(r2, r5) == encode_utf8(colon(pretty))
            &&& b.subrange(r5, ek) == ve
            &&& skip_ws_spec(b, sk - w) == sk
            &&& (k == 0 ==> sk - w == p + 1)
            &&& (k > 0 ==> sk - w == member_end(pairs, k - 1, p, pretty, pad) + 1)
            &&& (k + 1 < pairs.len() ==> b[ek] == 0x2C)
            &&& (k + 1 == pairs.len() ==> skip_ws_spec(b, ek) == p + n - 1 && !continues_number(b[ek]))
            &&& b[p + n - 1] == 0x7D
        }),
{
    let pairs = v->Object_0;
    let m = pairs.len() as int;
    let e = enc(v, pretty, pad);
    let n = e.len() as int;
    let pad2 = deeper(pad);
    lemma_deeper_spaces(pad);
    let body = object_body(pairs, pretty, pad2);
    let nlc = newline(pretty, pad);
    lemma_encode_char('{');
    lemma_encode_char('}');
    lemma_encode_char(',');
    assert(json_text(v, pretty, pad) == seq!['{'] + body + nlc + seq!['}']);
    lemma_encode_concat(seq!['{'] + body + nlc, seq!['}']);
    lemma_encode_concat(seq!['{'] + body, nlc);
    lemma_encode_concat(seq!['{'], body);
    let bb = encode_utf8(body);
    let nl = encode_utf8(nlc);
    assert(e == seq![0x7Bu8] + bb + nl + seq![0x7Du8]);
    lemma_sub_split(b, p, seq![0x7Bu8] + bb + nl, seq![0x7Du8]);
    lemma_sub_split(b, p, seq![0x7Bu8] + bb, nl);
    lemma_sub_split(b, p, seq![0x7Bu8], bb);
    assert(b[p + n - 1] == b.subrange(p + 1 + bb.len() + nl.len(), p + n)[0]);
    // the member's bytes
    lemma_object_step(pairs, k, pretty, pad2);
    lemma_object_prefix(pairs, k + 1, pretty, pad2);
    let a0 = encode_utf8(object_body(pairs.take(k), pretty, pad2));
    let a1 = encode_utf8(object_body(pairs.take(k + 1), pretty, pad2));
    let se = encode_utf8(sep(k));
    let nl2 = encode_utf8(newline(pretty, pad2));
    let kq = encode_utf8(quoted(pairs[k].0));
    let co = encode_utf8(colon(pretty));
    let ve = enc(pairs[k].1, pretty, pad2);
    assert(b.subrange(p + 1, p + 1 + a1.len()) =~= bb.subrange(0, a1.len() as int));
    lemma_sub_split(b, p + 1, a0 + se + nl2 + kq + co, ve);
    lemma_sub_split(b, p + 1, a0 + se + nl2 + kq, co);
    lemma_sub_split(b, p + 1, a0 + se + nl2, kq);
    lemma_sub_split(b, p + 1, a0 + se, nl2);
    let sk = member_start(pairs, k, p, pretty, pad);
    assert(sk == p + 1 + a0.len() + se.len() + nl2.len());
    let r2 = sk + kq.len();
    let r5 = r2 + co.len();
    let ek = r5 + ve.len();
    assert(ek == p + 1 + a1.len());
    if k == 0 {
        assert(pairs.take(0) =~= Seq::<(Seq<char>, Json)>::empty());
        assert(a0.len() == 0);
    } else {
        assert(pairs.take(k - 1 + 1) == pairs.take(k));
    }
    // the indentation before the key
    lemma_string_reads(b, sk, pairs[k].0);
    let rk = p + 1 + a0.len() + se.len();
    lemma_newline_bytes(pretty, pad2);
    assert forall|i: int| rk <= i < sk implies is_ws(#[trigger] b[i]) by {
        assert(b[i] == b.subrange(rk, sk)[i - rk]);
    }
    lemma_skip_ws(b, rk, nl2.len() as int);
    // what follows the value
    if k + 1 < m {
        lemma_object_step(pairs, k + 1, pretty, pad2);
        lemma_object_prefix(pairs, k + 2, pretty, pad2);
        let a2 = encode_utf8(object_body(pairs.take(k + 2), pretty, pad2));
        assert(encode_utf8(sep(k + 1)) == seq![0x2Cu8]);
        assert(b.subrange(p + 1, p + 1 + a2.len()) =~= bb.subrange(0, a2.len() as int));
        assert(b[ek] == a2[a1.len() as int]);
        assert(b[ek] == 0x2C);
    } else {
        assert(pairs.take(k + 1) =~= pairs);
        assert(a1 == bb);
        lemma_newline_bytes(pretty, pad);
        let c = ek + nl.len();
        assert forall|i: int| ek <= i < c implies is_ws(#[trigger] b[i]) by {
            assert(b[i] == b.subrange(p + 1 + bb.len(), p + 1 + bb.len() + nl.len())[i - ek]);
        }
        lemma_skip_ws(b, ek, nl.len() as int);
        if nl.len() > 0 {
            assert(is_ws(b[ek]));
        }
    }
}

/// Where the value of member `k` starts: after the colon and, when
/// pretty, its space.
proof fn lemma_after_colon(b: Seq<u8>, r2: int, pretty: bool, r5: int)
    requires
        0 <= r2,
        r5 == r2 + encode_utf8(colon(pretty)).len(),
        r5 < b.len(),
        b.subrange(r2, r5) == encode_utf8(colon(pretty)),
        starts_value(b[r5]),
    ensures
        skip_ws_spec(b, r2) == r2,
        b[r2] == 0x3A,
        skip_ws_spec(b, r2 + 1) == r5,
{
    lemma_colon_bytes(pretty);
    assert(b[r2] == b.subrange(r2, r5)[0]);
    lemma_skip_ws(b, r2, 0);
    if pretty {
        assert(b[r2 + 1] == b.subrange(r2, r5)[1]);
        lemma_skip_ws(b, r2 + 1, 1);
    } else {
        lemma_skip_ws(b, r2 + 1, 0);
    }
}

/// Reading members from member `k` on gives the whole object.
#[verifier::rlimit(100)]
pub proof fn lemma_members(
    b: Seq<u8>,
    p: int,
    v: Json,
    d: nat,
    pretty: bool,
    pad: Seq<char>,
    k: int,
)
    requires
        v is Object,
        v->Object_0.len() > 0,
        0 <= k < v->Object_0.len(),
        readable(v, d),
        all_spaces(pad),
        0 <= p,
        p + enc(v, pretty, pad).len() <= b.len(),
        b.subrange(p, p + enc(v, pretty, pad).len()) == enc(v, pretty, pad),
    ensures
        crate::json_parse::members_spec(
            b,
            member_start(v->Object_0, k, p, pretty, pad),
            d,
            v->Object_0.take(k),
        ) == Ok::<(Json, int), (Seq<char>, int)>((v, p + enc(v, pretty, pad).len())),
        b[member_start(v->Object_0, k, p, pretty, pad)] == 0x22,
    decreases v, 0int, v->Object_0.len() - k,
{
    let pairs = v->Object_0;
    let m = pairs.len() as int;
    let n = enc(v, pretty, pad).len() as int;
    let pad2 = deeper(pad);
    lemma_deeper_spaces(pad);
    lemma_member_layout(b, p, v, pretty, pad, k);
    let sk = member_start(pairs, k, p, pretty, pad);
    let kq = encode_utf8(quoted(pairs[k].0));
    let r2 = sk + kq.len();
    let r5 = r2 + encode_utf8(colon(pretty)).len();
    let ek = member_end(pairs, k, p, pretty, pad);
    lemma_readable_pair(pairs, d + 1, k);
    lemma_string_reads(b, sk, pairs[k].0);
    assert(decreases_to!(v => pairs));
    assert(decreases_to!(pairs => pairs[k]));
    assert(decreases_to!(pairs[k] => pairs[k].1));
    lemma_value(b, r5, pairs[k].1, d + 1, pretty, pad2);
    lemma_skip_ws(b, sk, 0);
    lemma_after_colon(b, r2, pretty, r5);
    let acc = pairs.take(k);
    assert(acc.push((pairs[k].0, pairs[k].1)) =~= pairs.take(k + 1));
    if k + 1 < m {
        lemma_skip_ws(b, ek, 0);
        lemma_members(b, p, v, d, pretty, pad, k + 1);
        lemma_member_layout(b, p, v, pretty, pad, k + 1);
        let sk1 = member_start(pairs, k + 1, p, pretty, pad);
        lemma_skip_ws(b, sk1, 0);
        let acc2 = pairs.take(k + 1);
        assert(crate::json_parse::members_spec(b, ek + 1, d, acc2)
            == crate::json_parse::members_spec(b, sk1, d, acc2));
    } else {
        assert(pairs.take(k + 1) =~= pairs);
        assert(Json::Object(pairs) == v);
    }
}

/// Every member value readable makes the members readable.
pub proof fn lemma_readable_pairs_from(pairs: Seq<(Seq<char>, Json)>, d: nat)
    requires
        forall|k: int| 0 <= k < pairs.len() ==> readable(#[trigger] pairs[k].1, d),
    ensures
        readable_pairs(pairs, d),
    decreases pairs.len(),
{
    if pairs.len() > 0 {
        let q = pairs.drop_last();
        assert forall|k: int| 0 <= k < q.len() implies readable(#[trigger] q[k].1, d) by {
            assert(q[k] == pairs[k]);
        }
        lemma_readable_pairs_from(q, d);
    }
}

/// Every element readable makes the elements readable.
pub proof fn lemma_readable_items_from(items: Seq<Json>, d: nat)
    requires
        forall|k: int| 0 <= k < items.len() ==> readable(#[trigger] items[k], d),
    ensures
        readable_items(items, d),
    decreases items.len(),
{
    if items.len() > 0 {
        let q = items.drop_last();
        assert forall|k: int| 0 <= k < q.len() implies readable(#[trigger] q[k], d) by {
            assert(q[k] == items[k]);
        }
        lemma_readable_items_from(q, d);
    }
}

/// Reading back the text the writer produces gives the value written,
/// compact or pretty. This holds of every value nested no deeper than the
/// parser's limit, whose non-negative integers are held as unsigned and
/// whose number texts read back as themselves.
pub proof fn law_json_text_roundtrip(v: Json, pretty: bool)
    requires
        readable(v, 0),
    ensures
        parse_spec(encode_utf8(json_text(v, pretty, Seq::empty()))) == Ok::<
            Json,
            (Seq<char>, int),
        >(v),
{
    let b = enc(v, pretty, Seq::empty());
    assert(all_spaces(Seq::<char>::empty()));
    assert(b.subrange(0, b.len() as int) =~= b);
    lemma_value(b, 0, v, 0, pretty, Seq::empty());
    lemma_skip_ws(b, 0, 0);
    lemma_skip_ws(b, b.len() as int, 0);
}

/// The hexadecimal digits in order of value, upper case.
pub open spec fn hex_upper() -> Seq<u8> {
    seq![
        0x30u8, 0x31, 0x32, 0x33, 0x34, 0x35, 0x36, 0x37, 0x38, 0x39, 0x41, 0x42, 0x43, 0x44, 0x45,
        0x46,
    ]
}

/// The hexadecimal digits in order of value, lower case.
pub open spec fn hex_lower() -> Seq<u8> {
    seq![
        0x30u8, 0x31, 0x32, 0x33, 0x34, 0x35, 0x36, 0x37, 0x38, 0x39, 0x61, 0x62, 0x63, 0x64, 0x65,
        0x66,
    ]
}

/// Each hexadecimal digit, upper or lower case, reads as its value, and
/// no other byte reads as a digit.
pub proof fn law_hex_digits(d: int, c: u8)
    ensures
        0 <= d < 16 ==> hex_value(hex_upper()[d]) == Some(d as u32),
        0 <= d < 16 ==> hex_value(hex_lower()[d]) == Some(d as u32),
        hex_value(c) is Some <==> (hex_upper().contains(c) || hex_lower().contains(c)),
{
    if hex_value(c) is Some {
        if 0x30 <= c <= 0x39 {
            assert(hex_upper()[c - 0x30] == c);
        } else if 0x61 <= c <= 0x66 {
            assert(hex_lower()[c - 0x61 + 10] == c);
        } else {
            assert(hex_upper()[c - 0x41 + 10] == c);
        }
    }
    if hex_upper().contains(c) || hex_lower().contains(c) {
        if hex_upper().contains(c) {
            let i = choose|i: int| 0 <= i < 16 && hex_upper()[i] == c;
        } else {
            let i = choose|i: int| 0 <= i < 16 && hex_lower()[i] == c;
        }
    }
}

/// A `\u` escape's four digits, each written in either case, read as the
/// number they spell in base 16.
pub proof fn law_hex4(b: Seq<u8>, p: int, ds: Seq<int>)
    requires
        0 <= p,
        p + 4 <= b.len(),
        ds.len() == 4,
        forall|k: int| 0 <= k < 4 ==> 0 <= #[trigger] ds[k] < 16,
        forall|k: int|
            0 <= k < 4 ==> #[trigger] b[p + k] == hex_upper()[ds[k]] || b[p + k] == hex_lower()[ds[k]],
    ensures
        hex4_spec(b, p) == Ok::<(u32, int), (Seq<char>, int)>(
            ((4096 * ds[0] + 256 * ds[1] + 16 * ds[2] + ds[3]) as u32, p + 4),
        ),
{
    law_hex_digits(ds[0], 0);
    law_hex_digits(ds[1], 0);
    law_hex_digits(ds[2], 0);
    law_hex_digits(ds[3], 0);
    assert(b[p + 0] == hex_upper()[ds[0]] || b[p + 0] == hex_lower()[ds[0]]);
    assert(b[p + 1] == hex_upper()[ds[1]] || b[p + 1] == hex_lower()[ds[1]]);
    assert(b[p + 2] == hex_upper()[ds[2]] || b[p + 2] == hex_lower()[ds[2]]);
    assert(b[p + 3] == hex_upper()[ds[3]] || b[p + 3] == hex_lower()[ds[3]]);
    assert(hex_value(b[p]) == Some(ds[0] as u32));
    assert(hex_value(b[p + 1]) == Some(ds[1] as u32));
    assert(hex_value(b[p + 2]) == Some(ds[2] as u32));
    assert(hex_value(b[p + 3]) == Some(ds[3] as u32));
    let a1 = ds[0] as u32;
    let a2 = (a1 * 16 + ds[1]) as u32;
    let a3 = (a2 * 16 + ds[2]) as u32;
    let a4 = (a3 * 16 + ds[3]) as u32;
    assert(hex_run(b, p, 4, a4) == Ok::<(u32, int), (Seq<char>, int)>((a4, p + 4)));
    assert(hex_run(b, p, 3, a3) == hex_run(b, p, 4, a4));
    assert(hex_run(b, p, 2, a2) == hex_run(b, p, 3, a3));
    assert(hex_run(b, p, 1, a1) == hex_run(b, p, 2, a2));
    assert(hex_run(b, p, 0, 0) == hex_run(b, p, 1, a1));
    assert(a4 == (4096 * ds[0] + 256 * ds[1] + 16 * ds[2] + ds[3]) as u32);
}

} // verus!
