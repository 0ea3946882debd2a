use vstd::string::StringExecFns;
use vstd::prelude::*;
use vstd::utf8::{decode_utf8, valid_utf8};

verus! {

/// The ASCII decimal digit for `d < 10`.
pub open spec fn digit_char(d: int) -> char {
    (48 + d) as char
}

/// The decimal representation of `n`, most significant digit first, with
/// no sign and no leading zeros (`"0"` for zero).
pub open spec fn decimal_chars(n: nat) -> Seq<char>
    decreases n,
{
    if n < 10 {
        seq![digit_char(n as int)]
    } else {
        decimal_chars(n / 10).push(digit_char((n % 10) as int))
    }
}

/// The message of an error result.
pub open spec fn err_msg<T>(res: Result<T, String>) -> Option<Seq<char>> {
    match res {
        Ok(_) => None,
        Err(e) => Some(e@),
    }
}

/// `String::push`: appends one character.
#[verifier::external_body]
pub(crate) fn push_char(s: &mut String, c: char)
    ensures
        final(s)@ == old(s)@.push(c),
{
    s.push(c);
}

/// `String::from_utf8`: the string when `bytes` are valid UTF-8.
#[verifier::external_body]
pub(crate) fn string_from_utf8(bytes: Vec<u8>) -> (res: Option<String>)
    ensures
        res is Some <==> valid_utf8(bytes@),
        res matches Some(s) ==> s@ == decode_utf8(bytes@),
{
    String::from_utf8(bytes).ok()
}

/// The decimal representation of `x`.
pub fn u128_to_string(x: u128) -> (res: String)
    ensures
        res@ == decimal_chars(x as nat),
    decreases x,
{
    let mut s = if x < 10 {
        String::new()
    } else {
        u128_to_string(x / 10)
    };
    let d = (x % 10) as u8;
    push_char(&mut s, (48u8 + d) as char);
    proof {
        if x < 10 {
            assert(s@ =~= seq![digit_char(x as int)]);
        }
    }
    s
}

/// The decimal representation of `x`.
pub fn u64_to_string(x: u64) -> (res: String)
    ensures
        res@ == decimal_chars(x as nat),
{
    u128_to_string(x as u128)
}

/// The characters of `s`, in order.
pub fn chars_vec(s: &str) -> (v: Vec<char>)
    ensures
        v@ == s@,
{
    let mut v: Vec<char> = Vec::new();
    for c in it: s.chars()
        invariant
            v@ == it.seq().take(it.index() as int),
            it.seq() == s@,
    {
        v.push(c);
    }
    v
}

/// The decimal representation of a signed value (`-` before negatives).
pub open spec fn signed_decimal_chars(x: int) -> Seq<char> {
    if x < 0 {
        seq!['-'] + decimal_chars((-x) as nat)
    } else {
        decimal_chars(x as nat)
    }
}

/// Decimal text of a signed 64-bit value.
pub fn i64_to_string(x: i64) -> (res: String)
    ensures
        res@ == signed_decimal_chars(x as int),
{
    if x < 0 {
        let mag: u64 = (0 - (x as i128)) as u64;
        let digits = u64_to_string(mag);
        let mut s = "-".to_owned();
        s.append(digits.as_str());
        proof {
            reveal_strlit("-");
        }
        s
    } else {
        u64_to_string(x as u64)
    }
}

} // verus!
