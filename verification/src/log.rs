use crate::models::{ascii_lower, text_is, to_ascii_lowercase};
use crate::text::{chars_vec, push_char};
use vstd::prelude::*;

verus! {

pub const ERROR: u8 = 1;

pub const WARN: u8 = 2;

pub const INFO: u8 = 3;

pub const DEBUG: u8 = 4;

pub const TRACE: u8 = 5;

/// Unicode white space (the characters `char::is_whitespace` accepts).
pub open spec fn is_white(c: char) -> bool {
    ||| '\u{9}' <= c <= '\u{d}'
    ||| c == ' '
    ||| c == '\u{85}'
    ||| c == '\u{a0}'
    ||| c == '\u{1680}'
    ||| '\u{2000}' <= c <= '\u{200a}'
    ||| c == '\u{2028}'
    ||| c == '\u{2029}'
    ||| c == '\u{202f}'
    ||| c == '\u{205f}'
    ||| c == '\u{3000}'
}

/// `s` without leading white space.
pub open spec fn trim_start(s: Seq<char>) -> Seq<char>
    decreases s.len(),
{
    if s.len() > 0 && is_white(s[0]) {
        trim_start(s.drop_first())
    } else {
        s
    }
}

/// `s` without trailing white space.
pub open spec fn trim_end(s: Seq<char>) -> Seq<char>
    decreases s.len(),
{
    if s.len() > 0 && is_white(s.last()) {
        trim_end(s.drop_last())
    } else {
        s
    }
}

/// Index of the last `c` in `s`, or -1.
pub open spec fn last_index(s: Seq<char>, c: char) -> int
    decreases s.len(),
{
    if s.len() == 0 {
        -1
    } else if s.last() == c {
        s.len() - 1
    } else {
        last_index(s.drop_last(), c)
    }
}

/// The level a single word names, case-insensitively.
pub open spec fn level_word(w: Seq<char>) -> Option<u8> {
    let l = ascii_lower(w);
    if l == "off"@ {
        Some(0u8)
    } else if l == "error"@ {
        Some(ERROR)
    } else if l == "warn"@ || l == "warning"@ {
        Some(WARN)
    } else if l == "info"@ {
        Some(INFO)
    } else if l == "debug"@ {
        Some(DEBUG)
    } else if l == "trace"@ {
        Some(TRACE)
    } else {
        None
    }
}

/// The word of a filter directive: what follows its last `=`, trimmed.
pub open spec fn directive_word(tok: Seq<char>) -> Seq<char> {
    trim_end(trim_start(tok.skip(last_index(tok, '=') + 1)))
}

/// The level of a filter spec: the rightmost comma-separated directive
/// whose word names a level.
pub open spec fn level_spec(s: Seq<char>) -> Option<u8>
    decreases s.len(),
{
    let k = last_index(s, ',');
    match level_word(directive_word(s.skip(k + 1))) {
        Some(l) => Some(l),
        None => if k < 0 || k >= s.len() {
            None
        } else {
            level_spec(s.take(k))
        },
    }
}

proof fn lemma_last_index(s: Seq<char>, c: char)
    ensures
        -1 <= last_index(s, c) < s.len(),
        last_index(s, c) >= 0 ==> s[last_index(s, c)] == c,
        forall|i: int| last_index(s, c) < i < s.len() ==> s[i] != c,
    decreases s.len(),
{
    if s.len() > 0 && s.last() != c {
        lemma_last_index(s.drop_last(), c);
        assert forall|i: int| last_index(s, c) < i < s.len() implies s[i] != c by {
            if i < s.len() - 1 {
                assert(s.drop_last()[i] == s[i]);
            }
        }
    }
}

/// Position of the last `c` in `cs[from..to]`, or `from - 1` as `None`.
fn last_in(cs: &Vec<char>, from: usize, to: usize, c: char) -> (r: Option<usize>)
    requires
        from <= to <= cs@.len(),
    ensures
        r matches Some(i) ==> from + last_index(cs@.subrange(from as int, to as int), c) == i,
        r is None ==> last_index(cs@.subrange(from as int, to as int), c) == -1,
{
    let mut j = to;
    while j > from
        invariant
            from <= j <= to <= cs@.len(),
            last_index(cs@.subrange(from as int, to as int), c) == last_index(
                cs@.subrange(from as int, j as int),
                c,
            ),
        decreases j,
    {
        assert(cs@.subrange(from as int, j as int).drop_last() =~= cs@.subrange(
            from as int,
            j - 1,
        ));
        if cs[j - 1] == c {
            return Some(j - 1);
        }
        j = j - 1;
    }
    None
}

fn is_white_exec(c: char) -> (r: bool)
    ensures
        r == is_white(c),
{
    ('\u{9}' <= c && c <= '\u{d}') || c == ' ' || c == '\u{85}' || c == '\u{a0}' || c
        == '\u{1680}' || ('\u{2000}' <= c && c <= '\u{200a}') || c == '\u{2028}' || c
        == '\u{2029}' || c == '\u{202f}' || c == '\u{205f}' || c == '\u{3000}'
}

/// The trimmed text of `cs[from..to]`.
fn trimmed(cs: &Vec<char>, from: usize, to: usize) -> (t: String)
    requires
        from <= to <= cs@.len(),
    ensures
        t@ == trim_end(trim_start(cs@.subrange(from as int, to as int))),
{
    let mut a = from;
    while a < to && is_white_exec(cs[a])
        invariant
            from <= a <= to <= cs@.len(),
            trim_start(cs@.subrange(from as int, to as int)) == trim_start(
                cs@.subrange(a as int, to as int),
            ),
        decreases to - a,
    {
        assert(cs@.subrange(a as int, to as int).drop_first() =~= cs@.subrange(a + 1, to as int));
        a = a + 1;
    }
    assert(trim_start(cs@.subrange(a as int, to as int)) == cs@.subrange(a as int, to as int));
    let mut b = to;
    while b > a && is_white_exec(cs[b - 1])
        invariant
            a <= b <= to <= cs@.len(),
            trim_end(cs@.subrange(a as int, to as int)) == trim_end(cs@.subrange(a as int, b as int)),
        decreases b,
    {
        assert(cs@.subrange(a as int, b as int).drop_last() =~= cs@.subrange(a as int, b - 1));
        b = b - 1;
    }
    assert(trim_end(cs@.subrange(a as int, b as int)) == cs@.subrange(a as int, b as int));
    let mut t = String::new();
    let mut i = a;
    while i < b
        invariant
            a <= i <= b <= cs@.len(),
            t@ == cs@.subrange(a as int, i as int),
        decreases b - i,
    {
        push_char(&mut t, cs[i]);
        i = i + 1;
        assert(t@ =~= cs@.subrange(a as int, i as int));
    }
    t
}

fn level_of_word(w: &str) -> (r: Option<u8>)
    ensures
        r == level_word(w@),
{
    let l = to_ascii_lowercase(w);
    if text_is(&l, "off") {
        Some(0)
    } else if text_is(&l, "error") {
        Some(ERROR)
    } else if text_is(&l, "warn") || text_is(&l, "warning") {
        Some(WARN)
    } else if text_is(&l, "info") {
        Some(INFO)
    } else if text_is(&l, "debug") {
        Some(DEBUG)
    } else if text_is(&l, "trace") {
        Some(TRACE)
    } else {
        None
    }
}

/// Accept a bare level or an EnvFilter-style `target=level` spec; the
/// rightmost bare level word wins.
pub fn parse_level(v: &str) -> (r: Option<u8>)
    ensures
        r == level_spec(v@),
{
    let cs = chars_vec(v);
    let mut end = cs.len();
    assert(cs@.subrange(0, end as int) =~= v@);
    loop
        invariant
            end <= cs@.len(),
            cs@ == v@,
            level_spec(v@) == level_spec(cs@.subrange(0, end as int)),
        decreases end,
    {
        let ghost s = cs@.subrange(0, end as int);
        proof {
            lemma_last_index(s, ',');
        }
        let k = last_in(&cs, 0, end, ',');
        let start = match k {
            Some(i) => i + 1,
            None => 0,
        };
        assert(s.skip(last_index(s, ',') + 1) =~= cs@.subrange(start as int, end as int));
        let ghost tok = cs@.subrange(start as int, end as int);
        proof {
            lemma_last_index(tok, '=');
        }
        let e = last_in(&cs, start, end, '=');
        let wstart = match e {
            Some(i) => i + 1,
            None => start,
        };
        assert(tok.skip(last_index(tok, '=') + 1) =~= cs@.subrange(wstart as int, end as int));
        let word = trimmed(&cs, wstart, end);
        match level_of_word(word.as_str()) {
            Some(l) => {
                return Some(l);
            },
            None => {},
        }
        match k {
            None => {
                return None;
            },
            Some(i) => {
                assert(s.take(i as int) =~= cs@.subrange(0, i as int));
                end = i;
            },
        }
    }
}

/// A message at `level` is shown when the threshold admits it.
pub fn enabled(level: u8, threshold: u8) -> (r: bool)
    ensures
        r == (level <= threshold),
{
    level <= threshold
}

/// The level logging runs at: the one `RUST_LOG` names when it is set
/// and names one, else the one `default_level` names, else `INFO`.
pub fn choose_level(env: Option<&str>, default_level: &str) -> (r: u8)
    ensures
        r == match env {
            Some(v) if level_spec(v@) is Some => level_spec(v@)->0,
            _ => match level_spec(default_level@) {
                Some(l) => l,
                None => INFO,
            },
        },
{
    if let Some(v) = env {
        if let Some(l) = parse_level(v) {
            return l;
        }
    }
    match parse_level(default_level) {
        Some(l) => l,
        None => INFO,
    }
}

} // verus!
