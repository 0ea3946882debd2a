use crate::text::{
    chars_vec, decimal_chars, i64_to_string, push_char, signed_decimal_chars, u64_to_string,
};
use crate::json_laws::{law_json_text_roundtrip, readable};
use crate::json_parse::parse_spec;
use vstd::prelude::*;
use vstd::string::StringExecFns;
use vstd::utf8::encode_utf8;

verus! {

/// JSON value. Objects preserve insertion order.
///
/// A number with a fraction or an exponent, or an integer outside the
/// 64-bit ranges, is kept as the text it was written with.
#[derive(Debug, PartialEq)]
pub enum Value {
    Null,
    Bool(bool),
    Int(i64),
    UInt(u64),
    Float(String),
    Str(String),
    Array(Vec<Value>),
    Object(Vec<(String, Value)>),
}

/// The mathematical model of a JSON value.
pub enum Json {
    Null,
    Bool(bool),
    Int(i64),
    UInt(u64),
    Float(Seq<char>),
    Str(Seq<char>),
    Array(Seq<Json>),
    Object(Seq<(Seq<char>, Json)>),
}

impl Value {
    /// The model of this value.
    pub open spec fn model(self) -> Json
        decreases self,
    {
        match self {
            Value::Null => Json::Null,
            Value::Bool(b) => Json::Bool(b),
            Value::Int(i) => Json::Int(i),
            Value::UInt(u) => Json::UInt(u),
            Value::Float(t) => Json::Float(t@),
            Value::Str(s) => Json::Str(s@),
            Value::Array(items) => Json::Array(models(items@)),
            Value::Object(pairs) => Json::Object(pair_models(pairs@)),
        }
    }
}

/// The models of a sequence of values.
pub open spec fn models(s: Seq<Value>) -> Seq<Json>
    decreases s,
{
    if s.len() == 0 {
        Seq::empty()
    } else {
        models(s.drop_last()).push(s.last().model())
    }
}

/// The models of a sequence of object members.
pub open spec fn pair_models(s: Seq<(String, Value)>) -> Seq<(Seq<char>, Json)>
    decreases s,
{
    if s.len() == 0 {
        Seq::empty()
    } else {
        pair_models(s.drop_last()).push((s.last().0@, s.last().1.model()))
    }
}

pub proof fn lemma_models(s: Seq<Value>)
    ensures
        models(s).len() == s.len(),
        forall|i: int| 0 <= i < s.len() ==> #[trigger] models(s)[i] == s[i].model(),
    decreases s.len(),
{
    if s.len() > 0 {
        lemma_models(s.drop_last());
    }
}

pub proof fn lemma_pair_models(s: Seq<(String, Value)>)
    ensures
        pair_models(s).len() == s.len(),
        forall|i: int|
            0 <= i < s.len() ==> #[trigger] pair_models(s)[i] == (s[i].0@, s[i].1.model()),
    decreases s.len(),
{
    if s.len() > 0 {
        lemma_pair_models(s.drop_last());
    }
}

/// Lower-case hexadecimal digit of `d < 16`.
pub open spec fn hex_digit(d: int) -> char {
    if d < 10 {
        (48 + d) as char
    } else {
        (87 + d) as char
    }
}

/// How the writer escapes one character: only what JSON requires.
pub open spec fn escape_char(c: char) -> Seq<char> {
    if c == '"' {
        seq!['\\', '"']
    } else if c == '\\' {
        seq!['\\', '\\']
    } else if c == '\u{8}' {
        seq!['\\', 'b']
    } else if c == '\u{c}' {
        seq!['\\', 'f']
    } else if c == '\n' {
        seq!['\\', 'n']
    } else if c == '\r' {
        seq!['\\', 'r']
    } else if c == '\t' {
        seq!['\\', 't']
    } else if (c as u32) < 0x20 {
        seq!['\\', 'u', '0', '0', hex_digit((c as u32) as int / 16), hex_digit((c as u32) as int % 16)]
    } else {
        seq![c]
    }
}

/// The escaped characters of `s`.
pub open spec fn escape_str(s: Seq<char>) -> Seq<char>
    decreases s.len(),
{
    if s.len() == 0 {
        Seq::empty()
    } else {
        escape_str(s.drop_last()) + escape_char(s.last())
    }
}

/// A JSON string literal for `s`.
pub open spec fn quoted(s: Seq<char>) -> Seq<char> {
    seq!['"'] + escape_str(s) + seq!['"']
}

/// The line break and indentation before an element in pretty output.
pub open spec fn newline(pretty: bool, pad: Seq<char>) -> Seq<char> {
    if pretty {
        seq!['\n'] + pad
    } else {
        Seq::empty()
    }
}

/// The indentation one level deeper.
pub open spec fn deeper(pad: Seq<char>) -> Seq<char> {
    pad + seq![' ', ' ']
}

/// The text of a JSON value: compact, or pretty with two-space indentation
/// where `pad` is the indentation of the value's own line.
pub open spec fn json_text(v: Json, pretty: bool, pad: Seq<char>) -> Seq<char>
    decreases v,
{
    match v {
        Json::Null => seq!['n', 'u', 'l', 'l'],
        Json::Bool(b) => if b {
            seq!['t', 'r', 'u', 'e']
        } else {
            seq!['f', 'a', 'l', 's', 'e']
        },
        Json::Int(i) => signed_decimal_chars(i as int),
        Json::UInt(u) => decimal_chars(u as nat),
        Json::Float(t) => t,
        Json::Str(s) => quoted(s),
        Json::Array(items) => if items.len() == 0 {
            seq!['[', ']']
        } else {
            seq!['['] + array_body(items, pretty, deeper(pad)) + newline(pretty, pad) + seq![']']
        },
        Json::Object(pairs) => if pairs.len() == 0 {
            seq!['{', '}']
        } else {
            seq!['{'] + object_body(pairs, pretty, deeper(pad)) + newline(pretty, pad) + seq!['}']
        },
    }
}

/// The elements of an array, separated by commas, each on its own line
/// when pretty.
pub open spec fn array_body(items: Seq<Json>, pretty: bool, pad: Seq<char>) -> Seq<char>
    decreases items,
{
    if items.len() == 0 {
        Seq::empty()
    } else {
        array_body(items.drop_last(), pretty, pad) + (if items.len() > 1 {
            seq![',']
        } else {
            Seq::empty()
        }) + newline(pretty, pad) + json_text(items.last(), pretty, pad)
    }
}

/// The members of an object: key, colon (and a space when pretty), value.
pub open spec fn object_body(pairs: Seq<(Seq<char>, Json)>, pretty: bool, pad: Seq<char>) -> Seq<
    char,
>
    decreases pairs,
{
    if pairs.len() == 0 {
        Seq::empty()
    } else {
        object_body(pairs.drop_last(), pretty, pad) + (if pairs.len() > 1 {
            seq![',']
        } else {
            Seq::empty()
        }) + newline(pretty, pad) + quoted(pairs.last().0) + (if pretty {
            seq![':', ' ']
        } else {
            seq![':']
        }) + json_text(pairs.last().1, pretty, pad)
    }
}

/// The value stored under `key` in a list of members: the first match.
pub open spec fn lookup(pairs: Seq<(Seq<char>, Json)>, key: Seq<char>) -> Option<Json>
    decreases pairs.len(),
{
    if pairs.len() == 0 {
        None
    } else if pairs[0].0 == key {
        Some(pairs[0].1)
    } else {
        lookup(pairs.drop_first(), key)
    }
}

/// The unsigned integer a value stands for, if any.
pub open spec fn json_u64(v: Json) -> Option<u64> {
    match v {
        Json::UInt(u) => Some(u),
        Json::Int(i) => if i >= 0 {
            Some(i as u64)
        } else {
            None
        },
        _ => None,
    }
}

/// Append the line break and indentation before an element (pretty only).
fn newline_indent(out: &mut String, pretty: bool, pad: &str)
    ensures
        final(out)@ == old(out)@ + newline(pretty, pad@),
{
    if pretty {
        push_char(out, '\n');
        out.append(pad);
    }
}

/// Hexadecimal digit character for `d < 16`.
fn hex_char(d: u32) -> (c: char)
    requires
        d < 16,
    ensures
        c == hex_digit(d as int),
{
    if d < 10 {
        ((48 + d) as u8) as char
    } else {
        ((87 + d) as u8) as char
    }
}

/// Append `s` as a JSON string literal, escaping only what JSON requires.
fn write_str(s: &str, out: &mut String)
    ensures
        final(out)@ == old(out)@ + quoted(s@),
{
    let cs = chars_vec(s);
    push_char(out, '"');
    let mut i: usize = 0;
    while i < cs.len()
        invariant
            i <= cs@.len(),
            cs@ == s@,
            out@ == old(out)@ + seq!['"'] + escape_str(cs@.take(i as int)),
        decreases cs@.len() - i,
    {
        let c = cs[i];
        let ghost before = out@;
        if c == '"' {
            push_char(out, '\\');
            push_char(out, '"');
        } else if c == '\\' {
            push_char(out, '\\');
            push_char(out, '\\');
        } else if c == '\u{8}' {
            push_char(out, '\\');
            push_char(out, 'b');
        } else if c == '\u{c}' {
            push_char(out, '\\');
            push_char(out, 'f');
        } else if c == '\n' {
            push_char(out, '\\');
            push_char(out, 'n');
        } else if c == '\r' {
            push_char(out, '\\');
            push_char(out, 'r');
        } else if c == '\t' {
            push_char(out, '\\');
            push_char(out, 't');
        } else if (c as u32) < 0x20 {
            let v = c as u32;
            push_char(out, '\\');
            push_char(out, 'u');
            push_char(out, '0');
            push_char(out, '0');
            push_char(out, hex_char(v / 16));
            push_char(out, hex_char(v % 16));
        } else {
            push_char(out, c);
        }
        proof {
            assert(out@ =~= before + escape_char(c));
            assert(cs@.take(i + 1).drop_last() =~= cs@.take(i as int));
        }
        i = i + 1;
    }
    push_char(out, '"');
    assert(cs@.take(i as int) =~= s@);
    assert(out@ =~= old(out)@ + quoted(s@));
}

/// `true` when the two strings hold the same characters.
fn same_text(a: &String, b: &String) -> (r: bool)
    ensures
        r == (a@ == b@),
{
    *a == *b
}

/// The value stored under `key` in `pairs` (the first member with that key).
pub fn find_member<'a>(pairs: &'a [(String, Value)], key: &str) -> (r: Option<&'a Value>)
    ensures
        r matches Some(v) ==> lookup(pair_models(pairs@), key@) == Some(v.model()),
        r is None ==> lookup(pair_models(pairs@), key@) is None,
{
    let k = key.to_owned();
    let mut i: usize = 0;
    proof {
        lemma_pair_models(pairs@);
        assert(pair_models(pairs@).skip(0) =~= pair_models(pairs@));
    }
    while i < pairs.len()
        invariant
            i <= pairs@.len(),
            k@ == key@,
            pair_models(pairs@).len() == pairs@.len(),
            forall|j: int|
                0 <= j < pairs@.len() ==> #[trigger] pair_models(pairs@)[j] == (
                    pairs@[j].0@,
                    pairs@[j].1.model(),
                ),
            lookup(pair_models(pairs@), key@) == lookup(pair_models(pairs@).skip(i as int), key@),
        decreases pairs@.len() - i,
    {
        let ghost rest = pair_models(pairs@).skip(i as int);
        if same_text(&pairs[i].0, &k) {
            assert(rest[0] == pair_models(pairs@)[i as int]);
            assert(lookup(rest, key@) == Some(pairs@[i as int].1.model()));
            return Some(&pairs[i].1);
        }
        assert(rest.drop_first() =~= pair_models(pairs@).skip(i + 1));
        i = i + 1;
    }
    assert(pair_models(pairs@).skip(i as int).len() == 0);
    None
}

impl Value {
    /// Look up `key` in an object value (the first member with that key).
    pub fn get(&self, key: &str) -> (r: Option<&Value>)
        ensures
            r matches Some(v) ==> self.model() matches Json::Object(pairs) && lookup(pairs, key@)
                == Some(v.model()),
            r is None ==> match self.model() {
                Json::Object(pairs) => lookup(pairs, key@) is None,
                _ => true,
            },
    {
        match self {
            Value::Object(pairs) => find_member(pairs.as_slice(), key),
            _ => None,
        }
    }

    pub fn as_object(&self) -> (r: Option<&[(String, Value)]>)
        ensures
            r matches Some(s) ==> *self matches Value::Object(pairs) && s@ == pairs@,
            r is None <==> !(*self is Object),
    {
        match self {
            Value::Object(pairs) => Some(pairs.as_slice()),
            _ => None,
        }
    }

    pub fn as_array(&self) -> (r: Option<&[Value]>)
        ensures
            r matches Some(s) ==> *self matches Value::Array(items) && s@ == items@,
            r is None <==> !(*self is Array),
    {
        match self {
            Value::Array(items) => Some(items.as_slice()),
            _ => None,
        }
    }

    pub fn as_str(&self) -> (r: Option<&str>)
        ensures
            r matches Some(s) ==> self.model() == Json::Str(s@),
            r is None <==> !(*self is Str),
    {
        match self {
            Value::Str(s) => Some(s.as_str()),
            _ => None,
        }
    }

    pub fn as_bool(&self) -> (r: Option<bool>)
        ensures
            r matches Some(b) ==> *self == Value::Bool(b),
            r is None <==> !(*self is Bool),
    {
        match self {
            Value::Bool(b) => Some(*b),
            _ => None,
        }
    }

    /// Unsigned integer view (a non-negative signed integer counts too).
    pub fn as_u64(&self) -> (r: Option<u64>)
        ensures
            r == json_u64(self.model()),
    {
        match self {
            Value::UInt(u) => Some(*u),
            Value::Int(i) => if *i >= 0 {
                Some(*i as u64)
            } else {
                None
            },
            _ => None,
        }
    }

    /// Compact serialization.
    pub fn to_json(&self) -> (s: String)
        ensures
            s@ == json_text(self.model(), false, Seq::empty()),
            readable(self.model(), 0) ==> parse_spec(encode_utf8(s@)) == Ok::<
                Json,
                (Seq<char>, int),
            >(self.model()),
    {
        let mut s = String::new();
        let pad = String::new();
        self.write(&mut s, false, pad.as_str());
        assert(s@ =~= json_text(self.model(), false, Seq::empty()));
        proof {
            if readable(self.model(), 0) {
                law_json_text_roundtrip(self.model(), false);
            }
        }
        s
    }

    /// Pretty serialization with two-space indentation.
    pub fn to_json_pretty(&self) -> (s: String)
        ensures
            s@ == json_text(self.model(), true, Seq::empty()),
            readable(self.model(), 0) ==> parse_spec(encode_utf8(s@)) == Ok::<
                Json,
                (Seq<char>, int),
            >(self.model()),
    {
        let mut s = String::new();
        let pad = String::new();
        self.write(&mut s, true, pad.as_str());
        assert(s@ =~= json_text(self.model(), true, Seq::empty()));
        proof {
            if readable(self.model(), 0) {
                law_json_text_roundtrip(self.model(), true);
            }
        }
        s
    }

    fn write(&self, out: &mut String, pretty: bool, pad: &str)
        ensures
            final(out)@ == old(out)@ + json_text(self.model(), pretty, pad@),
        decreases self,
    {
        match self {
            Value::Null => out.append("null"),
            Value::Bool(b) => {
                if *b {
                    out.append("true")
                } else {
                    out.append("false")
                }
            },
            Value::Int(i) => {
                let t = i64_to_string(*i);
                out.append(t.as_str());
            },
            Value::UInt(u) => {
                let t = u64_to_string(*u);
                out.append(t.as_str());
            },
            Value::Float(t) => out.append(t.as_str()),
            Value::Str(s) => write_str(s.as_str(), out),
            Value::Array(items) => {
                proof {
                    lemma_models(items@);
                }
                if items.len() == 0 {
                    out.append("[]");
                    proof {
                        reveal_strlit("[]");
                    }
                    return ;
                }
                let mut child = pad.to_owned();
                child.append("  ");
                proof {
                    reveal_strlit("  ");
                }
                push_char(out, '[');
                let mut i: usize = 0;
                while i < items.len()
                    invariant
                        *self == Value::Array(*items),
                        i <= items@.len(),
                        child@ == deeper(pad@),
                        models(items@).len() == items@.len(),
                        forall|j: int|
                            0 <= j < items@.len() ==> #[trigger] models(items@)[j]
                                == items@[j].model(),
                        out@ == old(out)@ + seq!['['] + array_body(
                            models(items@).take(i as int),
                            pretty,
                            child@,
                        ),
                    decreases items@.len() - i,
                {
                    let ghost before = out@;
                    if i > 0 {
                        push_char(out, ',');
                    }
                    newline_indent(out, pretty, child.as_str());
                    proof {
                        assert(decreases_to!(*items => items[i as int]));
                        assert(decreases_to!(*self => (*self)->Array_0));
                        assert(decreases_to!(*self => items[i as int]));
                    }
                    items[i].write(out, pretty, child.as_str());
                    proof {
                        let ms = models(items@);
                        assert(ms.take(i + 1).drop_last() =~= ms.take(i as int));
                        assert(ms.take(i + 1).last() == items@[i as int].model());
                    }
                    i = i + 1;
                }
                newline_indent(out, pretty, pad);
                push_char(out, ']');
                assert(models(items@).take(i as int) =~= models(items@));
            },
            Value::Object(pairs) => {
                proof {
                    lemma_pair_models(pairs@);
                }
                if pairs.len() == 0 {
                    out.append("{}");
                    proof {
                        reveal_strlit("{}");
                    }
                    return ;
                }
                let mut child = pad.to_owned();
                child.append("  ");
                proof {
                    reveal_strlit("  ");
                }
                push_char(out, '{');
                let mut i: usize = 0;
                while i < pairs.len()
                    invariant
                        *self == Value::Object(*pairs),
                        i <= pairs@.len(),
                        child@ == deeper(pad@),
                        pair_models(pairs@).len() == pairs@.len(),
                        forall|j: int|
                            0 <= j < pairs@.len() ==> #[trigger] pair_models(pairs@)[j] == (
                                pairs@[j].0@,
                                pairs@[j].1.model(),
                            ),
                        out@ == old(out)@ + seq!['{'] + object_body(
                            pair_models(pairs@).take(i as int),
                            pretty,
                            child@,
                        ),
                    decreases pairs@.len() - i,
                {
                    if i > 0 {
                        push_char(out, ',');
                    }
                    newline_indent(out, pretty, child.as_str());
                    write_str(pairs[i].0.as_str(), out);
                    push_char(out, ':');
                    if pretty {
                        push_char(out, ' ');
                    }
                    proof {
                        assert(decreases_to!(*pairs => pairs[i as int]));
                        assert(decreases_to!(*self => (*self)->Object_0));
                        assert(decreases_to!(*self => pairs[i as int].1));
                    }
                    pairs[i].1.write(out, pretty, child.as_str());
                    proof {
                        let ms = pair_models(pairs@);
                        assert(ms.take(i + 1).drop_last() =~= ms.take(i as int));
                        assert(ms.take(i + 1).last() == ms[i as int]);
                    }
                    i = i + 1;
                }
                newline_indent(out, pretty, pad);
                push_char(out, '}');
                assert(pair_models(pairs@).take(i as int) =~= pair_models(pairs@));
            },
        }
        proof {
            reveal_strlit("null");
            reveal_strlit("true");
            reveal_strlit("false");
        }
    }
}

} // verus!
